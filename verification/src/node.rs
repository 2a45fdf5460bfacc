//! A peer in memory, and a round of gossip between two of them.

use vstd::prelude::*;
use vstd::pervasive::unreached;
use kitsune_p2p_timestamp::Timestamp;
use crate::agent::AgentInfo;
use crate::aggregate::GridPoint;
use crate::arq::{Arq, ArqBounds, ArqSet, arc_len, arc_spans, lemma_intersect_commutes};
use crate::coords::Topology;
use crate::hash::{AgentKey, fake_hash};
use crate::host::{AccessOpStore, AccessPeerStore};
use crate::op::{Op, points_of, share};
use crate::op_store::OpStore;
use crate::region::{RegionBounds, RegionCoords, RegionData, RegionSet, REGION_MASS, diff_regions, grid_data, total_len};
use crate::round::{Round, RoundError, Stage, lemma_common_alike, lemma_points_alike, lemma_shape_total, offered, region_set_of, round_coords, share_all, total_size};
use crate::time::timestamp_micros;
use crate::tree::Tree;

verus! {

/// Whether `round` has come as far as the regions `coords` for which the
/// aggregates of `mine` differ from those of `theirs`, and has counted the
/// digests.
spec fn compared(
    topo: Topology,
    coords: Seq<Seq<RegionCoords>>,
    mine: Seq<Op>,
    theirs: Seq<Op>,
    round: Round,
) -> bool {
    &&& round.wf()
    &&& round.topology() == topo
    &&& round.stage() matches Stage::Diffed { regions, stats }
    &&& regions@ == diff_regions(
        coords,
        grid_data(points_of(topo, mine), coords),
        grid_data(points_of(topo, theirs), coords),
    )
    &&& stats.region_data_sent == REGION_MASS * total_len(coords, coords.len() as int)
    &&& stats.region_data_rcvd == stats.region_data_sent
    &&& stats.op_data_sent == 0
    &&& stats.op_data_rcvd == 0
}

/// What was sent and received in one round of gossip, in bytes.
#[derive(Clone, Copy, Debug, PartialEq, Eq, Structural)]
pub struct TestNodeGossipRoundStats {
    /// Bytes of region digests sent.
    pub region_data_sent: u32,
    /// Bytes of region digests received.
    pub region_data_rcvd: u32,
    /// Bytes of operations sent.
    pub op_data_sent: u32,
    /// Bytes of operations received.
    pub op_data_rcvd: u32,
}

impl Default for TestNodeGossipRoundStats {
    /// Nothing sent and nothing received.
    fn default() -> (r: TestNodeGossipRoundStats)
        ensures
            r.region_data_sent == 0,
            r.region_data_rcvd == 0,
            r.op_data_sent == 0,
            r.op_data_rcvd == 0,
    {
        TestNodeGossipRoundStats {
            region_data_sent: 0,
            region_data_rcvd: 0,
            op_data_sent: 0,
            op_data_rcvd: 0,
        }
    }
}

impl TestNodeGossipRoundStats {
    /// Both totals fit their 32 bits.
    pub open spec fn fits(&self) -> bool {
        &&& self.region_data_sent + self.op_data_sent <= u32::MAX
        &&& self.region_data_rcvd + self.op_data_rcvd <= u32::MAX
    }

    /// All bytes sent: digests and operations.
    pub fn total_sent(&self) -> (r: u32)
        requires
            self.region_data_sent + self.op_data_sent <= u32::MAX,
        ensures
            r == self.region_data_sent + self.op_data_sent,
    {
        self.region_data_sent + self.op_data_sent
    }

    /// All bytes received: digests and operations.
    pub fn total_rcvd(&self) -> (r: u32)
        requires
            self.region_data_rcvd + self.op_data_rcvd <= u32::MAX,
        ensures
            r == self.region_data_rcvd + self.op_data_rcvd,
    {
        self.region_data_rcvd + self.op_data_rcvd
    }
}

/// A peer that keeps its operations in memory.
pub struct TestNode {
    agent: AgentKey,
    agent_info: AgentInfo,
    ops: OpStore,
    tree: Tree,
}

impl View for TestNode {
    type V = Seq<Op>;

    /// The operations held, in the order of their arrival.
    closed spec fn view(&self) -> Seq<Op> {
        self.ops@
    }
}

impl TestNode {
    /// The identifier of the peer.
    pub closed spec fn key(&self) -> AgentKey {
        self.agent
    }

    /// The arc that the peer declares.
    pub closed spec fn arq(&self) -> Arq {
        self.agent_info.arq
    }

    /// The topology by which the peer places operations on the grid.
    pub closed spec fn topology(&self) -> Topology {
        self.tree.topology()
    }

    /// The grid points of the operations held.
    pub open spec fn points(&self) -> Seq<GridPoint> {
        points_of(self.topology(), self@)
    }

    /// The store and the index hold the same operations under one topology.
    pub closed spec fn wf(&self) -> bool {
        &&& self.tree.wf()
        &&& self.topology().wf()
        &&& self.ops.topology() == self.tree.topology()
        &&& self.tree@ == points_of(self.tree.topology(), self.ops@)
    }

    /// A peer holds fewer than `2^32` operations.
    pub proof fn lemma_len_bounded(&self)
        requires
            self.wf(),
        ensures
            self@.len() <= u32::MAX,
    {
        self.tree.lemma_len_bounded();
    }

    /// A peer without operations, under an identifier drawn at random.
    pub fn new(topo: Topology, arq: Arq) -> (r: TestNode)
        requires
            topo.wf(),
        ensures
            r.wf(),
            r.topology() == topo,
            r.arq() == arq,
            r@ == Seq::<Op>::empty(),
    {
        let r = TestNode {
            agent: AgentKey(fake_hash()),
            agent_info: AgentInfo { arq },
            ops: OpStore::new(topo),
            tree: Tree::new(topo),
        };
        proof {
            r.tree.lemma_topology_wf();
            assert(r.tree@ =~= points_of(topo, r.ops@));
        }
        r
    }

    /// The identifier of the peer.
    pub fn agent(&self) -> (r: AgentKey)
        ensures
            r == self.key(),
    {
        self.agent
    }

    /// The aggregation index of the peer.
    pub fn tree(&self) -> (r: &Tree)
        ensures
            self.wf() ==> r.wf() && r@ == self.points() && r.topology() == self.topology(),
    {
        &self.tree
    }

    /// The arc to use when gossiping.
    pub fn arq_bounds(&self) -> (b: ArqBounds)
        ensures
            b.wf(),
            b.start() == self.arq().start,
            b.power() == self.arq().power,
            b.len() == arc_len(self.arq().power, self.arq().count),
    {
        self.agent_info.arq.to_bounds()
    }

    /// The arc to use when gossiping, as a set of one arc.
    pub fn arq_set(&self) -> (s: ArqSet)
        ensures
            s.wf(),
            s.power() == self.arq().power,
            s@ == arc_spans(self.arq().start as int, arc_len(self.arq().power, self.arq().count)),
            forall|x: int| s.contains(x) <==> self.arq().contains(x),
    {
        let b = self.arq_bounds();
        let s = ArqSet::single(b);
        proof {
            crate::arq::lemma_arc_spans_in_ring(b.start(), b.len());
        }
        s
    }

    /// The digest of the peer for the regions that cover `arq_set` up to the instant `now`.
    pub fn region_set(&self, arq_set: ArqSet, now: Timestamp) -> (r: RegionSet)
        requires
            self.wf(),
        ensures
            r.xtcs().coords.spans() == arq_set@,
            r.xtcs().coords.power() == arq_set.power(),
            r.xtcs().coords.max_micros() == timestamp_micros(now),
            r.xtcs().fits(self.topology()),
            r.xtcs().aggregates() == grid_data(
                self.points(),
                r.xtcs().coords.coords(self.topology()),
            ),
    {
        region_set_of(self, arq_set, now)
    }

    /// Whether the counters of a round with `other` at the instant `now`
    /// can hold what the round sends, and both peers what they receive.
    pub open spec fn round_fits(&self, other: &TestNode, now: Timestamp) -> bool {
        let topo = self.topology();
        let coords = round_coords(topo, self.arq(), other.arq(), timestamp_micros(now) as int);
        let regions = total_len(coords, coords.len() as int);
        let out = offered(topo, self@, other@, coords);
        let inc = offered(topo, other@, self@, coords);
        &&& regions * REGION_MASS + total_size(out) <= u32::MAX
        &&& regions * REGION_MASS + total_size(inc) <= u32::MAX
        &&& self@.len() + inc.len() <= u32::MAX
        &&& other@.len() + out.len() <= u32::MAX
    }

    /// Why a round with `other` at the instant `now` cannot be held, if it cannot.
    pub open spec fn gossip_error(&self, other: &TestNode, now: Timestamp) -> Option<RoundError> {
        if !self.topology().same(other.topology()) {
            Some(RoundError::TopologyMismatch)
        } else if !self.round_fits(other, now) {
            Some(RoundError::Overflow)
        } else {
            None
        }
    }

    /// The digests of both peers over what both store.
    fn digests(&self, other: &TestNode, now: Timestamp) -> (r: Result<
        (Round, RegionSet, Round, RegionSet),
        RoundError,
    >)
        requires
            self.wf(),
            other.wf(),
        ensures
            r.is_ok() <==> self.topology().same(other.topology()),
            r matches Err(e) ==> e == RoundError::TopologyMismatch,
            r matches Ok(found) ==> ({
                let topo = self.topology();
                let coords = round_coords(
                    topo,
                    self.arq(),
                    other.arq(),
                    timestamp_micros(now) as int,
                );
                &&& found.0.wf()
                &&& found.2.wf()
                &&& found.0.topology() == topo
                &&& found.2.topology() == topo
                &&& found.0.exchange_error(found.1, found.3) is None || found.0.exchange_error(
                    found.1,
                    found.3,
                ) == Some(RoundError::Overflow)
                &&& found.2.exchange_error(found.3, found.1) == found.0.exchange_error(
                    found.1,
                    found.3,
                )
                &&& found.1.xtcs().coords.coords(topo) == coords
                &&& found.3.xtcs().coords.coords(topo) == coords
                &&& found.1.xtcs().fits(topo)
                &&& found.3.xtcs().fits(topo)
                &&& found.1.xtcs().aggregates() == grid_data(points_of(topo, self@), coords)
                &&& found.3.xtcs().aggregates() == grid_data(points_of(topo, other@), coords)
            }),
    {
        let topo: Topology = *self.tree.topo();
        let mine = self.arq_set();
        let theirs = other.arq_set();
        proof {
            lemma_intersect_commutes(mine@, theirs@);
        }
        let here = match Round::new(topo, now).agree(&mine, &theirs) {
            Ok(round) => round,
            Err(e) => {
                return Err(e);
            },
        };
        let there = match Round::new(topo, now).agree(&theirs, &mine) {
            Ok(round) => round,
            Err(e) => {
                return Err(e);
            },
        };
        let digest_here = match here.digest(self) {
            Ok(set) => set,
            Err(e) => {
                return Err(e);
            },
        };
        let digest_there = match there.digest(other) {
            Ok(set) => set,
            Err(e) => {
                return Err(e);
            },
        };
        Ok((here, digest_here, there, digest_there))
    }

    /// Both peers take the round as far as the regions that differ.
    /// Returns the round as this peer and as `other` sees it.
    fn compare(&self, other: &TestNode, now: Timestamp) -> (r: Result<(Round, Round), RoundError>)
        requires
            self.wf(),
            other.wf(),
        ensures
            r.is_ok() <==> self.topology().same(other.topology()) && REGION_MASS * total_len(
                round_coords(
                    self.topology(),
                    self.arq(),
                    other.arq(),
                    timestamp_micros(now) as int,
                ),
                round_coords(
                    self.topology(),
                    self.arq(),
                    other.arq(),
                    timestamp_micros(now) as int,
                ).len() as int,
            ) <= u32::MAX,
            r matches Err(e) ==> e == if self.topology().same(other.topology()) {
                RoundError::Overflow
            } else {
                RoundError::TopologyMismatch
            },
            r matches Ok(rounds) ==> ({
                let topo = self.topology();
                let coords = round_coords(
                    topo,
                    self.arq(),
                    other.arq(),
                    timestamp_micros(now) as int,
                );
                compared(topo, coords, self@, other@, rounds.0) && compared(
                    topo,
                    coords,
                    other@,
                    self@,
                    rounds.1,
                )
            }),
    {
        let ghost topo = self.topology();
        let ghost coords = round_coords(
            topo,
            self.arq(),
            other.arq(),
            timestamp_micros(now) as int,
        );
        let (here, digest_here, there, digest_there) = match self.digests(other, now) {
            Ok(found) => found,
            Err(e) => {
                return Err(e);
            },
        };
        proof {
            lemma_shape_total(coords, digest_here.xtcs().aggregates(), coords.len() as int);
            lemma_shape_total(coords, digest_there.xtcs().aggregates(), coords.len() as int);
            lemma_points_alike(topo, other.topology(), self@);
            lemma_points_alike(topo, other.topology(), other@);
            lemma_common_alike(topo, other.topology(), self.arq(), other.arq(), timestamp_micros(now) as int);
        }
        let sent_here = digest_here.duplicate();
        let sent_there = digest_there.duplicate();
        let here = match here.exchange(digest_here, sent_there) {
            Ok(round) => round,
            Err(e) => {
                return Err(e);
            },
        };
        let there = match there.exchange(digest_there, sent_here) {
            Ok(round) => round,
            Err(e) => {
                return Err(e);
            },
        };
        let here = match here.diff() {
            Ok(round) => round,
            Err(e) => {
                return Err(e);
            },
        };
        let there = match there.diff() {
            Ok(round) => round,
            Err(e) => {
                return Err(e);
            },
        };
        Ok((here, there))
    }

    /// Both peers fetch what they hand over and count it. Returns the
    /// rounds with what each peer is to take in.
    fn hand_over(&self, other: &TestNode, now: Timestamp, here: Round, there: Round) -> (r: Result<
        (Round, Round),
        RoundError,
    >)
        requires
            self.wf(),
            other.wf(),
            self.topology().same(other.topology()),
            compared(
                self.topology(),
                round_coords(
                    self.topology(),
                    self.arq(),
                    other.arq(),
                    timestamp_micros(now) as int,
                ),
                self@,
                other@,
                here,
            ),
            compared(
                self.topology(),
                round_coords(
                    self.topology(),
                    self.arq(),
                    other.arq(),
                    timestamp_micros(now) as int,
                ),
                other@,
                self@,
                there,
            ),
        ensures
            r.is_ok() <==> self.round_fits(other, now),
            r matches Err(e) ==> e == RoundError::Overflow,
            r matches Ok(rounds) ==> ({
                let topo = self.topology();
                let coords = round_coords(
                    topo,
                    self.arq(),
                    other.arq(),
                    timestamp_micros(now) as int,
                );
                let out = offered(topo, self@, other@, coords);
                let inc = offered(topo, other@, self@, coords);
                &&& rounds.0.wf()
                &&& rounds.1.wf()
                &&& rounds.0.finish_error(self) is None
                &&& rounds.1.finish_error(other) is None
                &&& rounds.0.stage() matches Stage::OpsExchanged { incoming, stats }
                &&& incoming@ == inc
                &&& stats.region_data_sent == REGION_MASS * total_len(coords, coords.len() as int)
                &&& stats.region_data_rcvd == stats.region_data_sent
                &&& stats.op_data_sent == total_size(out)
                &&& stats.op_data_rcvd == total_size(inc)
                &&& stats.fits()
                &&& rounds.1.stage() matches Stage::OpsExchanged { incoming: others, .. }
                &&& others@ == out
            }),
    {
        let ghost topo = self.topology();
        let ops_self = match here.outgoing(self) {
            Ok(ops) => ops,
            Err(e) => {
                return Err(e);
            },
        };
        let ops_other = match there.outgoing(other) {
            Ok(ops) => ops,
            Err(e) => {
                return Err(e);
            },
        };
        proof {
            lemma_points_alike(topo, other.topology(), self@);
            lemma_points_alike(topo, other.topology(), other@);
            lemma_common_alike(topo, other.topology(), self.arq(), other.arq(), timestamp_micros(now) as int);
        }
        let here = match here.deliver(&ops_self, share_all(&ops_other)) {
            Ok(round) => round,
            Err(e) => {
                return Err(e);
            },
        };
        let there = match there.deliver(&ops_other, share_all(&ops_self)) {
            Ok(round) => round,
            Err(e) => {
                return Err(e);
            },
        };
        if !here.ready(self) || !there.ready(other) {
            return Err(RoundError::Overflow);
        }
        Ok((here, there))
    }

    /// One round of gossip with `other` at the instant `now`, where it
    /// can be held: where both peers share a topology and the counters can
    /// hold what the round brings. Where it cannot, both peers are as before.
    pub fn try_gossip_with(&mut self, other: &mut TestNode, now: Timestamp) -> (r: Result<
        TestNodeGossipRoundStats,
        RoundError,
    >)
        requires
            old(self).wf(),
            old(other).wf(),
        ensures
            final(self).wf(),
            final(other).wf(),
            final(self).topology() == old(self).topology(),
            final(other).topology() == old(other).topology(),
            final(self).arq() == old(self).arq(),
            final(other).arq() == old(other).arq(),
            r.is_ok() <==> old(self).gossip_error(old(other), now) is None,
            r matches Err(e) ==> old(self).gossip_error(old(other), now) == Some(e) && final(self)@
                == old(self)@ && final(other)@ == old(other)@,
            r matches Ok(stats) ==> {
                &&& final(self)@ == old(self)@ + offered(
                    old(self).topology(),
                    old(other)@,
                    old(self)@,
                    round_coords(
                        old(self).topology(),
                        old(self).arq(),
                        old(other).arq(),
                        timestamp_micros(now) as int,
                    ),
                )
                &&& final(other)@ == old(other)@ + offered(
                    old(self).topology(),
                    old(self)@,
                    old(other)@,
                    round_coords(
                        old(self).topology(),
                        old(self).arq(),
                        old(other).arq(),
                        timestamp_micros(now) as int,
                    ),
                )
                &&& stats.region_data_sent == REGION_MASS * total_len(
                    round_coords(
                        old(self).topology(),
                        old(self).arq(),
                        old(other).arq(),
                        timestamp_micros(now) as int,
                    ),
                    round_coords(
                        old(self).topology(),
                        old(self).arq(),
                        old(other).arq(),
                        timestamp_micros(now) as int,
                    ).len() as int,
                )
                &&& stats.region_data_rcvd == stats.region_data_sent
                &&& stats.op_data_sent == total_size(final(other)@.skip(old(other)@.len() as int))
                &&& stats.op_data_rcvd == total_size(final(self)@.skip(old(self)@.len() as int))
                &&& stats.fits()
            },
    {
        let ghost mine = self@;
        let ghost theirs = other@;
        let (here, there) = match self.compare(other, now) {
            Ok(rounds) => rounds,
            Err(e) => {
                return Err(e);
            },
        };
        let (here, there) = match self.hand_over(other, now, here, there) {
            Ok(rounds) => rounds,
            Err(e) => {
                return Err(e);
            },
        };
        let ghost inc = here.stage()->OpsExchanged_incoming@;
        let ghost out = there.stage()->OpsExchanged_incoming@;
        let done = match here.finish(self) {
            Ok(round) => round,
            Err(e) => {
                return Err(e);
            },
        };
        let _ = match there.finish(other) {
            Ok(round) => round,
            Err(_) => unreached(),
        };
        proof {
            assert((mine + inc).skip(mine.len() as int) =~= inc);
            assert((theirs + out).skip(theirs.len() as int) =~= out);
        }
        match done.stats() {
            Some(stats) => Ok(stats),
            None => unreached(),
        }
    }

    /// One round of gossip with `other` at the instant `now`. Both peers
    /// compare their aggregates of the regions that cover what both store, and
    /// each takes in the operations that the other holds in the regions for
    /// which the aggregates differ.
    pub fn gossip_with(&mut self, other: &mut TestNode, now: Timestamp) -> (stats:
        TestNodeGossipRoundStats)
        requires
            old(self).wf(),
            old(other).wf(),
            old(self).topology().same(old(other).topology()),
            old(self).round_fits(old(other), now),
        ensures
            final(self).wf(),
            final(other).wf(),
            final(self).topology() == old(self).topology(),
            final(other).topology() == old(other).topology(),
            final(self).arq() == old(self).arq(),
            final(other).arq() == old(other).arq(),
            final(self)@ == old(self)@ + offered(
                old(self).topology(),
                old(other)@,
                old(self)@,
                round_coords(
                    old(self).topology(),
                    old(self).arq(),
                    old(other).arq(),
                    timestamp_micros(now) as int,
                ),
            ),
            final(other)@ == old(other)@ + offered(
                old(self).topology(),
                old(self)@,
                old(other)@,
                round_coords(
                    old(self).topology(),
                    old(self).arq(),
                    old(other).arq(),
                    timestamp_micros(now) as int,
                ),
            ),
            stats.region_data_sent == REGION_MASS * total_len(
                round_coords(
                    old(self).topology(),
                    old(self).arq(),
                    old(other).arq(),
                    timestamp_micros(now) as int,
                ),
                round_coords(
                    old(self).topology(),
                    old(self).arq(),
                    old(other).arq(),
                    timestamp_micros(now) as int,
                ).len() as int,
            ),
            stats.region_data_rcvd == stats.region_data_sent,
            stats.op_data_sent == total_size(final(other)@.skip(old(other)@.len() as int)),
            stats.op_data_rcvd == total_size(final(self)@.skip(old(self)@.len() as int)),
            stats.fits(),
    {
        match self.try_gossip_with(other, now) {
            Ok(stats) => stats,
            Err(_) => unreached(),
        }
    }
}

impl AccessOpStore for TestNode {
    open spec fn held(&self) -> Seq<Op> {
        self@
    }

    open spec fn grid(&self) -> Topology {
        self.topology()
    }

    open spec fn sound(&self) -> bool {
        self.wf()
    }

    proof fn lemma_sound(&self) {
        self.lemma_len_bounded();
        self.tree.lemma_topology_wf();
    }

    fn topo(&self) -> (r: Topology) {
        *self.tree.topo()
    }

    fn query_op_data(&self, region: &RegionBounds) -> (r: Vec<Op>) {
        self.ops.query_region(region)
    }

    fn query_region_data(&self, region: &RegionBounds) -> (r: RegionData) {
        self.tree.lookup(region)
    }

    fn integrate_op(&mut self, op: Op) {
        proof {
            assert(points_of(self.tree.topology(), self.ops@.push(op)) =~= points_of(
                self.tree.topology(),
                self.ops@,
            ).push(op.point(self.tree.topology())));
        }
        self.tree.add_op(share(&op));
        self.ops.integrate_op(op);
    }
}

impl AccessPeerStore for TestNode {
    open spec fn known(&self) -> AgentInfo {
        AgentInfo { arq: self.arq() }
    }

    fn get_agent_info(&self, _agent: AgentKey) -> (r: AgentInfo) {
        self.agent_info
    }
}

} // verus!
