//! The operations that one peer holds.

use vstd::prelude::*;
use crate::coords::Topology;
use crate::op::{Op, share};
use crate::region::RegionBounds;

verus! {

/// The operations of `ops` whose grid points under `topo` lie in `region`,
/// in the order in which they stand in `ops`.
pub open spec fn ops_in_region(topo: Topology, ops: Seq<Op>, region: RegionBounds) -> Seq<Op> {
    ops.filter(|op: Op| region.contains(op.point(topo)))
}

/// An append-only collection of operations.
pub struct OpStore {
    topo: Topology,
    ops: Vec<Op>,
}

impl View for OpStore {
    type V = Seq<Op>;

    /// The operations held, in the order of their arrival.
    closed spec fn view(&self) -> Seq<Op> {
        self.ops@
    }
}

impl OpStore {
    /// The topology by which operations are placed on the grid.
    pub closed spec fn topology(&self) -> Topology {
        self.topo
    }

    /// A store without operations.
    pub fn new(topo: Topology) -> (r: OpStore)
        ensures
            r.topology() == topo,
            r@ == Seq::<Op>::empty(),
    {
        OpStore { topo, ops: Vec::new() }
    }

    /// Appends the operation, whether or not an equal one is held already.
    pub fn integrate_op(&mut self, op: Op)
        ensures
            final(self).topology() == old(self).topology(),
            final(self)@ == old(self)@.push(op),
    {
        self.ops.push(op);
    }

    /// Number of operations held.
    pub fn len(&self) -> (n: usize)
        ensures
            n == self@.len(),
    {
        self.ops.len()
    }

    /// Every operation held whose grid point lies in `region`, once for each
    /// time that it was integrated, in the order of arrival.
    pub fn query_region(&self, region: &RegionBounds) -> (r: Vec<Op>)
        requires
            self.topology().wf(),
        ensures
            r@ == ops_in_region(self.topology(), self@, *region),
    {
        let ghost pred = |op: Op| region.contains(op.point(self.topo));
        let mut found: Vec<Op> = Vec::new();
        let n = self.ops.len();
        let mut i: usize = 0;
        proof {
            assert(self.ops@.take(0) =~= Seq::<Op>::empty());
        }
        while i < n
            invariant
                n == self.ops@.len(),
                i <= n,
                self.topo.wf(),
                pred == |op: Op| region.contains(op.point(self.topo)),
                found@ == self.ops@.take(i as int).filter(pred),
            decreases n - i,
        {
            let op = &self.ops[i];
            let p = op.to_point(&self.topo);
            let inside = region.x.0 <= p.x && p.x <= region.x.1 && region.t.0 <= p.t && p.t
                <= region.t.1;
            proof {
                assert(self.ops@.take(i + 1) =~= self.ops@.take(i as int).push(self.ops@[i as int]));
                self.ops@.take(i as int).lemma_filter_push(self.ops@[i as int], pred);
                assert(inside == pred(self.ops@[i as int]));
            }
            if inside {
                found.push(share(op));
            }
            i = i + 1;
        }
        proof {
            assert(self.ops@.take(n as int) =~= self.ops@);
        }
        found
    }
}

} // verus!
