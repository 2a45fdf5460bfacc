//! Operations: the records that peers reconcile.

use vstd::prelude::*;
use std::sync::Arc;
use kitsune_p2p_timestamp::Timestamp;
use crate::time::timestamp_micros;
use crate::coords::Topology;
use crate::aggregate::GridPoint;
use crate::hash::{Hash32, fake_hash};

verus! {

/// A location on the ring.
pub type Loc = u32;

/// What an operation says of itself. Never changed once made.
#[derive(Clone, Copy, Debug)]
pub struct OpData {
    /// Where on the ring the operation lives.
    pub loc: Loc,
    /// The hash of its content.
    pub hash: Hash32,
    /// Its size in bytes.
    pub size: u32,
    /// When it was authored.
    pub timestamp: Timestamp,
}

/// An operation, shared between those who hold it.
pub type Op = Arc<OpData>;

impl OpData {
    /// The instant of authoring, in microseconds since the UNIX epoch.
    pub open spec fn micros(self) -> int {
        timestamp_micros(self.timestamp) as int
    }

    /// The grid point that the operation falls on under `topo`.
    pub open spec fn point(self, topo: Topology) -> GridPoint {
        GridPoint {
            x: topo.space_coord_of(self.loc) as u32,
            t: topo.time_coord_at(self.micros()) as u32,
            size: self.size,
        }
    }

    /// An operation for trials: the given place, instant (in microseconds
    /// since the UNIX epoch) and size, under a hash drawn at random.
    pub fn fake(loc: Loc, timestamp: i64, size: u32) -> (r: OpData)
        ensures
            r.loc == loc,
            r.size == size,
            r.micros() == timestamp,
    {
        OpData { loc, hash: fake_hash(), size, timestamp: Timestamp::from_micros(timestamp) }
    }

    /// The grid point that the operation falls on under `topo`.
    pub fn to_point(&self, topo: &Topology) -> (p: GridPoint)
        requires
            topo.wf(),
        ensures
            p == self.point(*topo),
    {
        GridPoint {
            x: topo.space_coord(self.loc),
            t: topo.time_coord(self.timestamp),
            size: self.size,
        }
    }
}

/// The grid points of a sequence of operations, in the same order.
pub open spec fn points_of(topo: Topology, ops: Seq<Op>) -> Seq<GridPoint> {
    Seq::new(ops.len(), |i: int| ops[i].point(topo))
}

/// Another handle on the same operation. Wraps `Arc::clone`, which makes
/// a new pointer to the same allocation: the operation behind it is the same.
#[verifier::external_body]
pub(crate) fn share(op: &Op) -> (r: Op)
    ensures
        r == *op,
{
    Arc::clone(op)
}

} // verus!
