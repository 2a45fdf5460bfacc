//! The grid: how locations and timestamps become coordinates.

use vstd::prelude::*;
use kitsune_p2p_timestamp::Timestamp;
use crate::time::timestamp_micros;

verus! {

/// Number of space coordinates: the space axis is a ring that wraps here.
pub const RING_SIZE: u64 = 0x1_0000_0000;

/// Width of a space quantum of the standard topology, in locations.
pub const STANDARD_SPACE_QUANTUM: u32 = 4096;

/// Width of a time quantum of the standard topology, in microseconds: five minutes.
pub const STANDARD_TIME_QUANTUM: u32 = 300_000_000;

/// The time coordinate of an instant `micros`, on an axis that starts at
/// `origin` and counts quanta of `quantum` microseconds. Instants before the
/// origin fall on the first coordinate, instants beyond the axis on the last.
pub open spec fn time_coord_of(origin: int, quantum: int, micros: int) -> int {
    let elapsed = micros - origin;
    if elapsed <= 0 {
        0
    } else if elapsed / quantum > u32::MAX {
        u32::MAX as int
    } else {
        elapsed / quantum
    }
}

/// The quantization that peers must share for their aggregates to be comparable.
#[derive(Clone, Copy, Debug)]
pub struct Topology {
    space_quantum: u32,
    time_quantum: u32,
    time_origin: Timestamp,
}

impl Topology {
    /// Width of a space coordinate, in locations.
    pub closed spec fn space_quantum(self) -> int {
        self.space_quantum as int
    }

    /// Width of a time coordinate, in microseconds.
    pub closed spec fn time_quantum(self) -> int {
        self.time_quantum as int
    }

    /// The instant at which the time axis starts, in microseconds since the UNIX epoch.
    pub closed spec fn origin_micros(self) -> int {
        timestamp_micros(self.time_origin) as int
    }

    /// Both quanta are at least one wide.
    pub closed spec fn wf(self) -> bool {
        self.space_quantum >= 1 && self.time_quantum >= 1
    }

    /// Whether two topologies quantize alike.
    pub open spec fn same(self, other: Topology) -> bool {
        &&& self.space_quantum() == other.space_quantum()
        &&& self.time_quantum() == other.time_quantum()
        &&& self.origin_micros() == other.origin_micros()
    }

    /// The space coordinate of a location.
    pub open spec fn space_coord_of(self, loc: u32) -> int {
        loc as int / self.space_quantum()
    }

    /// The time coordinate of an instant given in microseconds since the UNIX epoch.
    pub open spec fn time_coord_at(self, micros: int) -> int {
        time_coord_of(self.origin_micros(), self.time_quantum(), micros)
    }

    /// Coordinates fit their 32 bits.
    pub proof fn lemma_coords_in_range(self, loc: u32, micros: int)
        requires
            self.wf(),
        ensures
            0 <= self.space_coord_of(loc) <= u32::MAX,
            0 <= self.time_coord_at(micros) <= u32::MAX,
    {
        let q = self.space_quantum as int;
        assert(0 <= loc as int / q <= loc as int) by (nonlinear_arith)
            requires
                q >= 1,
                loc >= 0,
        ;
        let e = micros - self.origin_micros();
        let tq = self.time_quantum as int;
        if e > 0 {
            assert(0 <= e / tq) by (nonlinear_arith)
                requires
                    tq >= 1,
                    e > 0,
            ;
        }
    }

    /// A topology with the given quanta, or `None` where one of them is zero.
    pub fn new(space_quantum: u32, time_quantum: u32, time_origin: Timestamp) -> (r: Option<
        Topology,
    >)
        ensures
            r.is_some() <==> space_quantum >= 1 && time_quantum >= 1,
            r matches Some(t) ==> {
                &&& t.wf()
                &&& t.space_quantum() == space_quantum
                &&& t.time_quantum() == time_quantum
                &&& t.origin_micros() == timestamp_micros(time_origin)
            },
    {
        if space_quantum >= 1 && time_quantum >= 1 {
            Some(Topology { space_quantum, time_quantum, time_origin })
        } else {
            None
        }
    }

    /// The topology in which every location and every microsecond is a coordinate of its own.
    pub fn identity(time_origin: Timestamp) -> (r: Topology)
        ensures
            r.wf(),
            r.space_quantum() == 1,
            r.time_quantum() == 1,
            r.origin_micros() == timestamp_micros(time_origin),
    {
        Topology { space_quantum: 1, time_quantum: 1, time_origin }
    }

    /// The topology with quanta of 4096 locations and of five minutes.
    pub fn standard(time_origin: Timestamp) -> (r: Topology)
        ensures
            r.wf(),
            r.space_quantum() == STANDARD_SPACE_QUANTUM,
            r.time_quantum() == STANDARD_TIME_QUANTUM,
            r.origin_micros() == timestamp_micros(time_origin),
    {
        Topology {
            space_quantum: STANDARD_SPACE_QUANTUM,
            time_quantum: STANDARD_TIME_QUANTUM,
            time_origin,
        }
    }

    /// The instant at which the time axis starts.
    pub fn time_origin(&self) -> (r: Timestamp)
        ensures
            timestamp_micros(r) == self.origin_micros(),
    {
        self.time_origin
    }

    /// Whether `other` quantizes as this topology does.
    pub fn same_as(&self, other: &Topology) -> (r: bool)
        ensures
            r == self.same(*other),
    {
        self.space_quantum == other.space_quantum && self.time_quantum == other.time_quantum
            && self.time_origin.as_micros() == other.time_origin.as_micros()
    }

    /// The space coordinate of a location.
    pub fn space_coord(&self, loc: u32) -> (r: u32)
        requires
            self.wf(),
        ensures
            r == self.space_coord_of(loc),
    {
        loc / self.space_quantum
    }

    /// The time coordinate of an instant.
    pub fn time_coord(&self, at: Timestamp) -> (r: u32)
        requires
            self.wf(),
        ensures
            r == self.time_coord_at(timestamp_micros(at) as int),
    {
        let elapsed: i128 = at.as_micros() as i128 - self.time_origin.as_micros() as i128;
        if elapsed <= 0 {
            0
        } else {
            let quanta: i128 = elapsed / (self.time_quantum as i128);
            if quanta > u32::MAX as i128 {
                u32::MAX
            } else {
                quanta as u32
            }
        }
    }
}

} // verus!
