//! What reconciliation asks of the peer that it runs on.

use vstd::prelude::*;
use crate::agent::AgentInfo;
use crate::coords::Topology;
use crate::hash::AgentKey;
use crate::op::{Op, points_of};
use crate::op_store::ops_in_region;
use crate::region::{RegionBounds, RegionData};

verus! {

/// Access to what is known of peers.
pub trait AccessPeerStore {
    /// What the store knows of every peer.
    spec fn known(&self) -> AgentInfo;

    /// What the peer `agent` declares.
    fn get_agent_info(&self, agent: AgentKey) -> (r: AgentInfo)
        ensures
            r == self.known(),
    ;
}

/// Access to the operations of a peer. The aggregate of a region is that
/// of the operations held, after every integration.
pub trait AccessOpStore: AccessPeerStore {
    /// The operations held, in the order of their arrival.
    spec fn held(&self) -> Seq<Op>;

    /// The topology by which operations are placed on the grid.
    spec fn grid(&self) -> Topology;

    /// What the store keeps true of itself between calls.
    spec fn sound(&self) -> bool;

    /// A sound store places operations by a usable topology and holds
    /// fewer than `2^32` of them.
    proof fn lemma_sound(&self)
        requires
            self.sound(),
        ensures
            self.grid().wf(),
            self.held().len() <= u32::MAX,
    ;

    /// The topology by which operations are placed on the grid.
    fn topo(&self) -> (r: Topology)
        ensures
            r == self.grid(),
    ;

    /// Every operation held whose grid point lies in `region`.
    fn query_op_data(&self, region: &RegionBounds) -> (r: Vec<Op>)
        requires
            self.sound(),
        ensures
            r@ == ops_in_region(self.grid(), self.held(), *region),
    ;

    /// Count and total size of the operations held whose grid points lie in `region`.
    fn query_region_data(&self, region: &RegionBounds) -> (r: RegionData)
        requires
            self.sound(),
        ensures
            r.count == region.count(points_of(self.grid(), self.held())),
            r.size == region.size(points_of(self.grid(), self.held())),
    ;

    /// Takes the operation in, whether or not an equal one is held already.
    fn integrate_op(&mut self, op: Op)
        requires
            old(self).sound(),
            old(self).held().len() < u32::MAX,
        ensures
            final(self).sound(),
            final(self).grid() == old(self).grid(),
            final(self).known() == old(self).known(),
            final(self).held() == old(self).held().push(op),
    ;
}

} // verus!
