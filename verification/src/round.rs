//! What a round of gossip does, told over the operations that the two peers hold.

use vstd::prelude::*;
use kitsune_p2p_timestamp::Timestamp;
use crate::aggregate::{lemma_in_all, lemma_in_bounds};
use crate::arq::{Arq, ArqSet, Span, ring_offset, arc_len, arc_spans, intersect_spans, lemma_arc_len_range, lemma_arc_spans, lemma_intersect_spans, spans_contain};
use crate::coords::Topology;
use crate::host::AccessOpStore;
use crate::node::TestNodeGossipRoundStats;
use crate::op::{Op, points_of, share};
use crate::op_store::ops_in_region;
use crate::region::{Region, RegionBounds, RegionCoords, RegionCoordSetXtcs, RegionData, RegionSet, RegionSetXtcs, REGION_MASS, data_of, diff_regions, grid_data, lemma_diff_reports, lemma_tiling_covers, rows, same_shape, tiling, total_len};
use crate::time::timestamp_micros;

verus! {

/// The operations of `ops` that lie in the first `n` of the regions, region after region.
pub open spec fn fetch_upto(topo: Topology, ops: Seq<Op>, regions: Seq<Region>, n: int) -> Seq<Op>
    decreases n,
{
    if n <= 0 {
        Seq::empty()
    } else {
        fetch_upto(topo, ops, regions, n - 1) + ops_in_region(
            topo,
            ops,
            regions[n - 1].coords.bounds(),
        )
    }
}

/// The operations of `ops` that lie in the regions, region after region.
pub open spec fn fetch(topo: Topology, ops: Seq<Op>, regions: Seq<Region>) -> Seq<Op> {
    fetch_upto(topo, ops, regions, regions.len() as int)
}

/// Sum of the sizes of the first `n` operations.
pub open spec fn size_upto(ops: Seq<Op>, n: int) -> nat
    decreases n,
{
    if n <= 0 {
        0
    } else {
        size_upto(ops, n - 1) + ops[n - 1].size as nat
    }
}

/// Sum of the sizes of the operations.
pub open spec fn total_size(ops: Seq<Op>) -> nat {
    size_upto(ops, ops.len() as int)
}

/// The stretches of the ring that both arcs cover.
pub open spec fn common_spans(a: Arq, b: Arq) -> Seq<Span> {
    intersect_spans(
        arc_spans(a.start as int, arc_len(a.power, a.count)),
        arc_spans(b.start as int, arc_len(b.power, b.count)),
    )
}

/// The regions that a round between peers with the arcs `a` and `b` compares at the instant `now`.
pub open spec fn round_coords(topo: Topology, a: Arq, b: Arq, now: int) -> Seq<Seq<RegionCoords>> {
    tiling(
        common_spans(a, b),
        if a.power <= b.power {
            a.power as int
        } else {
            b.power as int
        },
        topo.time_coord_at(now),
    )
}

/// The operations that a peer holding `mine` hands to a peer holding
/// `theirs`: its operations in the regions for which their aggregates differ.
pub open spec fn offered(
    topo: Topology,
    mine: Seq<Op>,
    theirs: Seq<Op>,
    coords: Seq<Seq<RegionCoords>>,
) -> Seq<Op> {
    fetch(
        topo,
        mine,
        diff_regions(
            coords,
            grid_data(points_of(topo, mine), coords),
            grid_data(points_of(topo, theirs), coords),
        ),
    )
}

/// Sizes add up over growing prefixes.
pub proof fn lemma_size_upto_grows(ops: Seq<Op>, m: int, n: int)
    requires
        m <= n,
    ensures
        size_upto(ops, m) <= size_upto(ops, n),
    decreases n - m,
{
    if m < n {
        lemma_size_upto_grows(ops, m, n - 1);
    }
}

/// Topologies that quantize alike place operations alike.
pub proof fn lemma_points_alike(a: Topology, b: Topology, ops: Seq<Op>)
    requires
        a.same(b),
    ensures
        points_of(a, ops) == points_of(b, ops),
{
    assert(points_of(a, ops) =~= points_of(b, ops));
}

/// Topologies that quantize alike find the same operations in a region.
pub proof fn lemma_fetch_alike(a: Topology, b: Topology, ops: Seq<Op>, regions: Seq<Region>, n: int)
    requires
        a.same(b),
    ensures
        fetch_upto(a, ops, regions, n) == fetch_upto(b, ops, regions, n),
    decreases n,
{
    if n > 0 {
        lemma_fetch_alike(a, b, ops, regions, n - 1);
        let r = regions[n - 1].coords.bounds();
        assert((|op: Op| r.contains(op.point(a))) =~= (|op: Op| r.contains(op.point(b))));
    }
}

/// Topologies that quantize alike make for the same round: the same
/// regions, the same aggregates and the same operations handed over.
pub proof fn lemma_common_alike(a: Topology, b: Topology, x: Arq, y: Arq, now: int)
    requires
        a.same(b),
    ensures
        round_coords(a, x, y, now) == round_coords(b, x, y, now),
        round_coords(a, x, y, now) == round_coords(a, y, x, now),
        forall|mine: Seq<Op>, theirs: Seq<Op>|
            #[trigger] offered(a, mine, theirs, round_coords(a, x, y, now)) == offered(
                b,
                mine,
                theirs,
                round_coords(a, x, y, now),
            ),
{
    let sx = arc_spans(x.start as int, arc_len(x.power, x.count));
    let sy = arc_spans(y.start as int, arc_len(y.power, y.count));
    lemma_arc_len_range(x.power, x.count);
    lemma_arc_len_range(y.power, y.count);
    lemma_arc_spans(x.start as int, arc_len(x.power, x.count));
    lemma_arc_spans(y.start as int, arc_len(y.power, y.count));
    crate::arq::lemma_intersect_commutes(sx, sy);
    let coords = round_coords(a, x, y, now);
    assert forall|mine: Seq<Op>, theirs: Seq<Op>|
        #[trigger] offered(a, mine, theirs, coords) == offered(b, mine, theirs, coords) by {
        lemma_points_alike(a, b, mine);
        lemma_points_alike(a, b, theirs);
        let report = diff_regions(
            coords,
            grid_data(points_of(a, mine), coords),
            grid_data(points_of(a, theirs), coords),
        );
        lemma_fetch_alike(a, b, mine, report, report.len() as int);
    }
}

/// Rows of equal lengths have equal totals.
pub proof fn lemma_shape_total<A, B>(c: Seq<Seq<A>>, d: Seq<Seq<B>>, n: int)
    requires
        same_shape(c, d),
        n <= c.len(),
    ensures
        total_len(c, n) == total_len(d, n),
    decreases n,
{
    if n > 0 {
        lemma_shape_total(c, d, n - 1);
    }
}

/// Whether the two peers hold the same operations in every region for
/// which their aggregates agree: whether no difference hides behind equal
/// counts and sizes.
pub open spec fn digests_faithful(
    topo: Topology,
    mine: Seq<Op>,
    theirs: Seq<Op>,
    coords: Seq<Seq<RegionCoords>>,
) -> bool {
    forall|i: int, j: int, op: Op|
        #![trigger coords[i][j], mine.contains(op)]
        #![trigger coords[i][j], theirs.contains(op)]
        0 <= i < coords.len() && 0 <= j < coords[i].len() && data_of(
            points_of(topo, mine),
            coords[i][j].bounds(),
        ) == data_of(points_of(topo, theirs), coords[i][j].bounds())
            && coords[i][j].bounds().contains(op.point(topo)) ==> (mine.contains(op)
            <==> theirs.contains(op))
}

/// What either of two sequences holds, both together hold.
proof fn lemma_concat_contains<T>(a: Seq<T>, b: Seq<T>, x: T)
    requires
        a.contains(x) || b.contains(x),
    ensures
        (a + b).contains(x),
{
    if a.contains(x) {
        let i = choose|i: int| 0 <= i < a.len() && a[i] == x;
        assert((a + b)[i] == x);
    } else {
        let i = choose|i: int| 0 <= i < b.len() && b[i] == x;
        assert((a + b)[a.len() + i] == x);
    }
}

/// An operation held that lies in one of the first `n` regions is among those fetched.
proof fn lemma_fetch_holds(
    topo: Topology,
    ops: Seq<Op>,
    regions: Seq<Region>,
    n: int,
    k: int,
    op: Op,
)
    requires
        0 <= k < n <= regions.len(),
        ops.contains(op),
        regions[k].coords.bounds().contains(op.point(topo)),
    ensures
        fetch_upto(topo, ops, regions, n).contains(op),
    decreases n,
{
    let head = fetch_upto(topo, ops, regions, n - 1);
    let bounds = regions[n - 1].coords.bounds();
    let tail = ops_in_region(topo, ops, bounds);
    assert(fetch_upto(topo, ops, regions, n) == head + tail);
    if k == n - 1 {
        let pred = |o: Op| bounds.contains(o.point(topo));
        let i = choose|i: int| 0 <= i < ops.len() && ops[i] == op;
        ops.lemma_filter_contains(pred, i);
    } else {
        lemma_fetch_holds(topo, ops, regions, n - 1, k, op);
    }
    lemma_concat_contains(head, tail, op);
}

/// A coordinate that both arcs hold lies on one of the stretches that they share.
pub proof fn lemma_common_covers(a: Arq, b: Arq, x: int)
    requires
        a.contains(x),
        b.contains(x),
    ensures
        spans_contain(common_spans(a, b), x),
{
    let sa = arc_spans(a.start as int, arc_len(a.power, a.count));
    let sb = arc_spans(b.start as int, arc_len(b.power, b.count));
    lemma_arc_len_range(a.power, a.count);
    lemma_arc_len_range(b.power, b.count);
    lemma_arc_spans(a.start as int, arc_len(a.power, a.count));
    lemma_arc_spans(b.start as int, arc_len(b.power, b.count));
    assert(ring_offset(a.start as int, x) < arc_len(a.power, a.count));
    assert(spans_contain(sa, x));
    assert(ring_offset(b.start as int, x) < arc_len(b.power, b.count));
    assert(spans_contain(sb, x));
    lemma_intersect_spans(sa, sb);
    assert(spans_contain(intersect_spans(sa, sb), x));
}

/// An operation on what both arcs cover that is no later than the
/// instant of the round lies in a region of the round. Returns the row and
/// the place in the row.
pub proof fn lemma_round_covers(topo: Topology, a: Arq, b: Arq, now: int, op: Op) -> (w: (
    int,
    int,
))
    requires
        topo.wf(),
        a.contains(op.point(topo).x as int),
        b.contains(op.point(topo).x as int),
        op.point(topo).t <= topo.time_coord_at(now),
    ensures
        0 <= w.0 < round_coords(topo, a, b, now).len(),
        0 <= w.1 < round_coords(topo, a, b, now)[w.0].len(),
        round_coords(topo, a, b, now)[w.0][w.1].bounds().contains(op.point(topo)),
{
    let power = if a.power <= b.power {
        a.power as int
    } else {
        b.power as int
    };
    lemma_common_covers(a, b, op.point(topo).x as int);
    topo.lemma_coords_in_range(0, now);
    lemma_tiling_covers(common_spans(a, b), power, topo.time_coord_at(now), op.point(topo))
}

/// A peer hands over every operation that it holds in a region for which
/// the aggregates differ.
pub proof fn lemma_offer_holds(
    topo: Topology,
    mine: Seq<Op>,
    theirs: Seq<Op>,
    coords: Seq<Seq<RegionCoords>>,
    i: int,
    j: int,
    op: Op,
)
    requires
        0 <= i < coords.len(),
        0 <= j < coords[i].len(),
        mine.contains(op),
        coords[i][j].bounds().contains(op.point(topo)),
        data_of(points_of(topo, mine), coords[i][j].bounds()) != data_of(
            points_of(topo, theirs),
            coords[i][j].bounds(),
        ),
    ensures
        offered(topo, mine, theirs, coords).contains(op),
{
    let da = grid_data(points_of(topo, mine), coords);
    let db = grid_data(points_of(topo, theirs), coords);
    assert(da[i][j] == data_of(points_of(topo, mine), coords[i][j].bounds()));
    assert(db[i][j] == data_of(points_of(topo, theirs), coords[i][j].bounds()));
    let report = diff_regions(coords, da, db);
    let k = lemma_diff_reports(coords, da, db, i, j);
    lemma_fetch_holds(topo, mine, report, report.len() as int, k, op);
}

/// After a round, both peers hold every operation that one of them held
/// before, that lies on what both arcs cover and is no later than the
/// instant of the round, as long as the digests are faithful.
pub proof fn lemma_round_reconciles(
    topo: Topology,
    a: Arq,
    b: Arq,
    now: int,
    mine: Seq<Op>,
    theirs: Seq<Op>,
    op: Op,
)
    requires
        topo.wf(),
        mine.contains(op) || theirs.contains(op),
        a.contains(op.point(topo).x as int),
        b.contains(op.point(topo).x as int),
        op.point(topo).t <= topo.time_coord_at(now),
        digests_faithful(topo, mine, theirs, round_coords(topo, a, b, now)),
    ensures
        (mine + offered(topo, theirs, mine, round_coords(topo, a, b, now))).contains(op),
        (theirs + offered(topo, mine, theirs, round_coords(topo, a, b, now))).contains(op),
{
    let coords = round_coords(topo, a, b, now);
    let w = lemma_round_covers(topo, a, b, now, op);
    let bounds = coords[w.0][w.1].bounds();
    let to_theirs = offered(topo, mine, theirs, coords);
    let to_mine = offered(topo, theirs, mine, coords);
    if data_of(points_of(topo, mine), bounds) != data_of(points_of(topo, theirs), bounds) {
        if mine.contains(op) {
            lemma_offer_holds(topo, mine, theirs, coords, w.0, w.1, op);
        } else {
            lemma_offer_holds(topo, theirs, mine, coords, w.0, w.1, op);
        }
    } else {
        assert(mine.contains(op) <==> theirs.contains(op));
    }
    lemma_concat_contains(mine, to_mine, op);
    lemma_concat_contains(theirs, to_theirs, op);
}

/// The digest of a store for the regions that cover `arq_set` up to the instant `now`.
pub fn region_set_of<S: AccessOpStore>(store: &S, arq_set: ArqSet, now: Timestamp) -> (r:
    RegionSet)
    requires
        store.sound(),
    ensures
        r.xtcs().coords.spans() == arq_set@,
        r.xtcs().coords.power() == arq_set.power(),
        r.xtcs().coords.max_micros() == timestamp_micros(now),
        r.xtcs().fits(store.grid()),
        r.xtcs().aggregates() == grid_data(
            points_of(store.grid(), store.held()),
            r.xtcs().coords.coords(store.grid()),
        ),
{
    proof {
        store.lemma_sound();
    }
    let topo = store.topo();
    let coords = RegionCoordSetXtcs::new(now, arq_set);
    let nested = coords.region_coords_nested(&topo);
    let ghost c = coords.coords(store.grid());
    let ghost pts = points_of(store.grid(), store.held());
    let mut data: Vec<Vec<RegionData>> = Vec::new();
    let mut i: usize = 0;
    while i < nested.len()
        invariant
            store.sound(),
            i <= nested@.len(),
            rows(nested@) == c,
            pts == points_of(store.grid(), store.held()),
            pts.len() <= u32::MAX,
            forall|m: int, n: int|
                0 <= m < nested@.len() && 0 <= n < nested@[m]@.len() ==> (
                #[trigger] nested@[m]@[n]).wf(),
            data@.len() == i,
            forall|m: int|
                0 <= m < i ==> (#[trigger] data@[m])@ == Seq::new(
                    c[m].len(),
                    |n: int| data_of(pts, c[m][n].bounds()),
                ),
        decreases nested@.len() - i,
    {
        let columns = &nested[i];
        let mut row: Vec<RegionData> = Vec::new();
        let mut j: usize = 0;
        proof {
            assert(c[i as int] == columns@);
        }
        while j < columns.len()
            invariant
                store.sound(),
                j <= columns@.len(),
                pts == points_of(store.grid(), store.held()),
                pts.len() <= u32::MAX,
                forall|n: int| 0 <= n < columns@.len() ==> (#[trigger] columns@[n]).wf(),
                row@.len() == j,
                forall|n: int| 0 <= n < j ==> #[trigger] row@[n] == data_of(pts, columns@[n].bounds()),
            decreases columns@.len() - j,
        {
            let found = store.query_region_data(&columns[j].to_bounds());
            proof {
                let b = columns@[j as int].bounds();
                lemma_in_bounds(pts, b.x.0 as int, b.x.1 as int, b.t.0 as int, b.t.1 as int);
                assert(found == data_of(pts, b));
            }
            row.push(found);
            j = j + 1;
        }
        proof {
            assert(row@ =~= Seq::new(
                c[i as int].len(),
                |n: int| data_of(pts, c[i as int][n].bounds()),
            ));
        }
        data.push(row);
        i = i + 1;
    }
    let set = RegionSetXtcs { coords, data };
    proof {
        assert(set.aggregates() =~~= grid_data(pts, c));
    }
    RegionSet::Xtcs(set)
}

/// The operations of a store that lie in the regions, region after region.
pub fn fetch_ops<S: AccessOpStore>(store: &S, regions: &Vec<Region>) -> (r: Vec<Op>)
    requires
        store.sound(),
        forall|k: int| 0 <= k < regions@.len() ==> (#[trigger] regions@[k]).coords.wf(),
    ensures
        r@ == fetch(store.grid(), store.held(), regions@),
{
    let mut out: Vec<Op> = Vec::new();
    let mut k: usize = 0;
    while k < regions.len()
        invariant
            store.sound(),
            k <= regions@.len(),
            forall|k: int| 0 <= k < regions@.len() ==> (#[trigger] regions@[k]).coords.wf(),
            out@ == fetch_upto(store.grid(), store.held(), regions@, k as int),
        decreases regions@.len() - k,
    {
        let mut found = store.query_op_data(&regions[k].coords.to_bounds());
        out.append(&mut found);
        k = k + 1;
    }
    out
}

/// Hands each of the operations to the store.
pub fn integrate_ops<S: AccessOpStore>(store: &mut S, ops: &Vec<Op>)
    requires
        old(store).sound(),
        old(store).held().len() + ops@.len() <= u32::MAX,
    ensures
        final(store).sound(),
        final(store).grid() == old(store).grid(),
        final(store).known() == old(store).known(),
        final(store).held() == old(store).held() + ops@,
{
    let mut i: usize = 0;
    while i < ops.len()
        invariant
            i <= ops@.len(),
            store.sound(),
            store.grid() == old(store).grid(),
            store.known() == old(store).known(),
            old(store).held().len() + ops@.len() <= u32::MAX,
            store.held() == old(store).held() + ops@.take(i as int),
        decreases ops@.len() - i,
    {
        proof {
            assert(ops@.take(i + 1) =~= ops@.take(i as int).push(ops@[i as int]));
            assert(old(store).held() + ops@.take(i + 1) =~= (old(store).held() + ops@.take(
                i as int,
            )).push(ops@[i as int]));
        }
        store.integrate_op(share(&ops[i]));
        i = i + 1;
    }
    proof {
        assert(ops@.take(ops@.len() as int) =~= ops@);
    }
}

/// The sizes of the operations added to `base`, where the sum fits 32 bits.
pub fn sum_sizes(ops: &Vec<Op>, base: u32) -> (r: Option<u32>)
    ensures
        match r {
            Some(sum) => sum == base + total_size(ops@),
            None => base + total_size(ops@) > u32::MAX,
        },
{
    let mut sum: u32 = base;
    let mut i: usize = 0;
    while i < ops.len()
        invariant
            i <= ops@.len(),
            sum == base + size_upto(ops@, i as int),
        decreases ops@.len() - i,
    {
        if ops[i].size > u32::MAX - sum {
            proof {
                lemma_size_upto_grows(ops@, i + 1, ops@.len() as int);
            }
            return None;
        }
        sum = sum + ops[i].size;
        i = i + 1;
    }
    Some(sum)
}

/// Whether the store can take `more` operations.
pub fn has_room<S: AccessOpStore>(store: &S, more: usize) -> (r: bool)
    requires
        store.sound(),
    ensures
        r == (store.held().len() + more <= u32::MAX),
{
    let all = store.query_region_data(
        &RegionBounds { x: (0, u32::MAX), t: (0, u32::MAX) },
    );
    proof {
        lemma_in_all(points_of(store.grid(), store.held()));
    }
    more <= (u32::MAX - all.count) as usize
}

/// Further handles on the same operations.
pub fn share_all(ops: &Vec<Op>) -> (r: Vec<Op>)
    ensures
        r@ == ops@,
{
    let mut out: Vec<Op> = Vec::new();
    let mut i: usize = 0;
    while i < ops.len()
        invariant
            i <= ops@.len(),
            out@ == ops@.take(i as int),
        decreases ops@.len() - i,
    {
        out.push(share(&ops[i]));
        assert(ops@.take(i + 1) =~= ops@.take(i as int).push(ops@[i as int]));
        i = i + 1;
    }
    assert(ops@.take(ops@.len() as int) =~= ops@);
    out
}

/// How far a round has come.
#[derive(Clone, Copy, Debug, PartialEq, Eq, Structural)]
pub enum RoundState {
    /// Nothing done yet.
    Idle,
    /// What both peers store is known.
    CommonArqComputed,
    /// Each peer has the digest of the other.
    RegionSetsExchanged,
    /// The regions that differ are known.
    Diffed,
    /// Each peer has the operations of the other in those regions.
    OpsExchanged,
    /// The operations received are taken in.
    Done,
}

/// Why a step of a round was refused.
#[derive(Clone, Copy, Debug, PartialEq, Eq, Structural)]
pub enum RoundError {
    /// The round is not at the state from which the step leads on.
    WrongState,
    /// The store places operations by another topology than the round.
    TopologyMismatch,
    /// A digest does not speak of the regions of the round.
    Incomparable,
    /// A counter of the round, or the store, cannot hold what the step brings.
    Overflow,
}

/// What a round holds at each of its states.
pub enum Stage {
    /// Nothing done yet.
    Idle,
    /// What both peers store is known.
    CommonArqComputed {
        /// What both peers store.
        common: ArqSet,
    },
    /// Each peer has the digest of the other.
    RegionSetsExchanged {
        /// The digest of this peer.
        mine: RegionSet,
        /// The digest of the other peer.
        theirs: RegionSet,
        /// What was sent and received so far.
        stats: TestNodeGossipRoundStats,
    },
    /// The regions that differ are known.
    Diffed {
        /// The regions for which the digests differ, with the aggregates of this peer.
        regions: Vec<Region>,
        /// What was sent and received so far.
        stats: TestNodeGossipRoundStats,
    },
    /// Each peer has the operations of the other in those regions.
    OpsExchanged {
        /// The operations received.
        incoming: Vec<Op>,
        /// What was sent and received so far.
        stats: TestNodeGossipRoundStats,
    },
    /// The operations received are taken in.
    Done {
        /// What was sent and received.
        stats: TestNodeGossipRoundStats,
    },
}

/// Whether the digest speaks of the regions that cover `spans`, cut at
/// `power`, up to the instant `now`.
pub open spec fn speaks_of(set: RegionSet, spans: Seq<Span>, power: int, now: int) -> bool {
    &&& set.xtcs().coords.spans() == spans
    &&& set.xtcs().coords.power() == power
    &&& set.xtcs().coords.max_micros() == now
}

/// One peer's side of a round of gossip. Nothing changes at the peer
/// before the last step: a round given up earlier leaves no trace.
pub struct Round {
    topo: Topology,
    now: Timestamp,
    stage: Stage,
}

impl Round {
    /// The topology that both peers have to share.
    pub closed spec fn topology(&self) -> Topology {
        self.topo
    }

    /// The instant that both peers compare at, in microseconds since the UNIX epoch.
    pub closed spec fn now_micros(&self) -> int {
        timestamp_micros(self.now) as int
    }

    /// What the round holds.
    pub closed spec fn stage(&self) -> Stage {
        self.stage
    }

    /// How far the round has come.
    pub open spec fn phase(&self) -> RoundState {
        match self.stage() {
            Stage::Idle => RoundState::Idle,
            Stage::CommonArqComputed { .. } => RoundState::CommonArqComputed,
            Stage::RegionSetsExchanged { .. } => RoundState::RegionSetsExchanged,
            Stage::Diffed { .. } => RoundState::Diffed,
            Stage::OpsExchanged { .. } => RoundState::OpsExchanged,
            Stage::Done { .. } => RoundState::Done,
        }
    }

    /// What the steps keep true of the round.
    pub closed spec fn wf(&self) -> bool {
        &&& self.topo.wf()
        &&& match self.stage {
            Stage::Idle => true,
            Stage::CommonArqComputed { common } => common.wf(),
            Stage::RegionSetsExchanged { mine, theirs, stats } => {
                &&& mine.xtcs().fits(self.topo)
                &&& theirs.xtcs().fits(self.topo)
                &&& mine.xtcs().coords.coords(self.topo) == theirs.xtcs().coords.coords(self.topo)
            },
            Stage::Diffed { regions, stats } => forall|k: int|
                0 <= k < regions@.len() ==> (#[trigger] regions@[k]).coords.wf(),
            Stage::OpsExchanged { incoming, stats } => stats.fits(),
            Stage::Done { stats } => stats.fits(),
        }
    }

    /// A round under `topo` at the instant `now`, with nothing done yet.
    pub fn new(topo: Topology, now: Timestamp) -> (r: Round)
        requires
            topo.wf(),
        ensures
            r.wf(),
            r.topology() == topo,
            r.now_micros() == timestamp_micros(now),
            r.stage() is Idle,
    {
        Round { topo, now, stage: Stage::Idle }
    }

    /// How far the round has come.
    pub fn state(&self) -> (r: RoundState)
        ensures
            r == self.phase(),
    {
        match &self.stage {
            Stage::Idle => RoundState::Idle,
            Stage::CommonArqComputed { .. } => RoundState::CommonArqComputed,
            Stage::RegionSetsExchanged { .. } => RoundState::RegionSetsExchanged,
            Stage::Diffed { .. } => RoundState::Diffed,
            Stage::OpsExchanged { .. } => RoundState::OpsExchanged,
            Stage::Done { .. } => RoundState::Done,
        }
    }

    /// What was sent and received so far, once the digests are exchanged.
    pub fn stats(&self) -> (r: Option<TestNodeGossipRoundStats>)
        ensures
            r == match self.stage() {
                Stage::Idle => None,
                Stage::CommonArqComputed { .. } => None,
                Stage::RegionSetsExchanged { stats, .. } => Some(stats),
                Stage::Diffed { stats, .. } => Some(stats),
                Stage::OpsExchanged { stats, .. } => Some(stats),
                Stage::Done { stats } => Some(stats),
            },
    {
        match &self.stage {
            Stage::Idle => None,
            Stage::CommonArqComputed { .. } => None,
            Stage::RegionSetsExchanged { stats, .. } => Some(*stats),
            Stage::Diffed { stats, .. } => Some(*stats),
            Stage::OpsExchanged { stats, .. } => Some(*stats),
            Stage::Done { stats } => Some(*stats),
        }
    }

    /// The regions for which the digests differ, once they are found.
    pub fn regions(&self) -> (r: Option<&Vec<Region>>)
        ensures
            match self.stage() {
                Stage::Diffed { regions, .. } => r == Some(&regions),
                _ => r.is_none(),
            },
    {
        match &self.stage {
            Stage::Diffed { regions, .. } => Some(regions),
            _ => None,
        }
    }

    /// First step: what both peers store, from what each declares. Where
    /// they share nothing the round goes on, over no regions.
    pub fn agree(self, mine: &ArqSet, theirs: &ArqSet) -> (r: Result<Round, RoundError>)
        requires
            self.wf(),
            mine.wf(),
            theirs.wf(),
        ensures
            r.is_ok() <==> self.phase() == RoundState::Idle,
            r matches Err(e) ==> e == RoundError::WrongState,
            r matches Ok(next) ==> {
                &&& next.wf()
                &&& next.topology() == self.topology()
                &&& next.now_micros() == self.now_micros()
                &&& next.stage() matches Stage::CommonArqComputed { common }
                &&& common.wf()
                &&& common@ == intersect_spans(mine@, theirs@)
                &&& common.power() == if mine.power() <= theirs.power() {
                    mine.power()
                } else {
                    theirs.power()
                }
            },
    {
        match self.stage {
            Stage::Idle => Ok(
                Round {
                    topo: self.topo,
                    now: self.now,
                    stage: Stage::CommonArqComputed { common: mine.intersection(theirs) },
                },
            ),
            _ => Err(RoundError::WrongState),
        }
    }

    /// The digest of this peer over what both store, to be sent to the other.
    pub fn digest<S: AccessOpStore>(&self, store: &S) -> (r: Result<RegionSet, RoundError>)
        requires
            self.wf(),
            store.sound(),
        ensures
            r.is_ok() <==> self.phase() == RoundState::CommonArqComputed && store.grid().same(
                self.topology(),
            ),
            r matches Err(e) ==> (if self.phase() != RoundState::CommonArqComputed {
                e == RoundError::WrongState
            } else {
                e == RoundError::TopologyMismatch
            }),
            r matches Ok(set) ==> {
                &&& self.stage() matches Stage::CommonArqComputed { common }
                &&& speaks_of(set, common@, common.power(), self.now_micros())
                &&& set.xtcs().fits(self.topology())
                &&& set.xtcs().aggregates() == grid_data(
                    points_of(self.topology(), store.held()),
                    set.xtcs().coords.coords(self.topology()),
                )
            },
    {
        match &self.stage {
            Stage::CommonArqComputed { common } => {
                if !store.topo().same_as(&self.topo) {
                    return Err(RoundError::TopologyMismatch);
                }
                let set = region_set_of(store, common.duplicate(), self.now);
                proof {
                    lemma_points_alike(store.grid(), self.topo, store.held());
                    assert(set.xtcs().coords.coords(store.grid()) == set.xtcs().coords.coords(
                        self.topo,
                    ));
                }
                Ok(set)
            },
            _ => Err(RoundError::WrongState),
        }
    }

    /// Second step: the digest sent and the digest received. Both have
    /// to speak of the regions of the round. Counts what each costs.
    pub fn exchange(self, mine: RegionSet, theirs: RegionSet) -> (r: Result<Round, RoundError>)
        requires
            self.wf(),
        ensures
            r.is_ok() <==> self.exchange_error(mine, theirs).is_none(),
            r matches Err(e) ==> self.exchange_error(mine, theirs) == Some(e),
            r matches Ok(next) ==> {
                &&& next.wf()
                &&& next.topology() == self.topology()
                &&& next.now_micros() == self.now_micros()
                &&& next.stage() matches Stage::RegionSetsExchanged { mine: m, theirs: t, stats }
                &&& m == mine
                &&& t == theirs
                &&& stats.region_data_sent == mine.xtcs().total() * REGION_MASS
                &&& stats.region_data_rcvd == theirs.xtcs().total() * REGION_MASS
                &&& stats.op_data_sent == 0
                &&& stats.op_data_rcvd == 0
                &&& mine.xtcs().coords.coords(self.topology()) == theirs.xtcs().coords.coords(
                    self.topology(),
                )
            },
    {
        match self.stage {
            Stage::CommonArqComputed { common } => {
                let expected = RegionCoordSetXtcs::new(self.now, common);
                if !(mine.covers(&expected) && theirs.covers(&expected) && mine.is_fit(&self.topo)
                    && theirs.is_fit(&self.topo)) {
                    return Err(RoundError::Incomparable);
                }
                let sent = match mine.mass() {
                    Some(m) => m,
                    None => {
                        return Err(RoundError::Overflow);
                    },
                };
                let rcvd = match theirs.mass() {
                    Some(m) => m,
                    None => {
                        return Err(RoundError::Overflow);
                    },
                };
                Ok(
                    Round {
                        topo: self.topo,
                        now: self.now,
                        stage: Stage::RegionSetsExchanged {
                            mine,
                            theirs,
                            stats: TestNodeGossipRoundStats {
                                region_data_sent: sent,
                                region_data_rcvd: rcvd,
                                op_data_sent: 0,
                                op_data_rcvd: 0,
                            },
                        },
                    },
                )
            },
            _ => Err(RoundError::WrongState),
        }
    }

    /// Why the two digests cannot be exchanged in this round, if they cannot.
    pub open spec fn exchange_error(&self, mine: RegionSet, theirs: RegionSet) -> Option<
        RoundError,
    > {
        match self.stage() {
            Stage::CommonArqComputed { common } => {
                if !(speaks_of(mine, common@, common.power(), self.now_micros()) && speaks_of(
                    theirs,
                    common@,
                    common.power(),
                    self.now_micros(),
                ) && mine.xtcs().fits(self.topology()) && theirs.xtcs().fits(self.topology())) {
                    Some(RoundError::Incomparable)
                } else if mine.xtcs().total() * REGION_MASS > u32::MAX || theirs.xtcs().total()
                    * REGION_MASS > u32::MAX {
                    Some(RoundError::Overflow)
                } else {
                    None
                }
            },
            _ => Some(RoundError::WrongState),
        }
    }

    /// Third step: the regions for which the two digests differ.
    pub fn diff(self) -> (r: Result<Round, RoundError>)
        requires
            self.wf(),
        ensures
            r.is_ok() <==> self.phase() == RoundState::RegionSetsExchanged,
            r matches Err(e) ==> e == RoundError::WrongState,
            r matches Ok(next) ==> {
                &&& next.wf()
                &&& next.topology() == self.topology()
                &&& next.now_micros() == self.now_micros()
                &&& self.stage() matches Stage::RegionSetsExchanged { mine, theirs, stats }
                &&& next.stage() matches Stage::Diffed { regions, stats: kept }
                &&& kept == stats
                &&& regions@ == diff_regions(
                    mine.xtcs().coords.coords(self.topology()),
                    mine.xtcs().aggregates(),
                    theirs.xtcs().aggregates(),
                )
            },
    {
        match self.stage {
            Stage::RegionSetsExchanged { mine, theirs, stats } => {
                let regions = mine.diff(&theirs, &self.topo);
                Ok(Round { topo: self.topo, now: self.now, stage: Stage::Diffed { regions, stats } })
            },
            _ => Err(RoundError::WrongState),
        }
    }

    /// The operations that this peer holds in the regions that differ, to
    /// be sent to the other.
    pub fn outgoing<S: AccessOpStore>(&self, store: &S) -> (r: Result<Vec<Op>, RoundError>)
        requires
            self.wf(),
            store.sound(),
        ensures
            r.is_ok() <==> self.phase() == RoundState::Diffed && store.grid().same(self.topology()),
            r matches Err(e) ==> (if self.phase() != RoundState::Diffed {
                e == RoundError::WrongState
            } else {
                e == RoundError::TopologyMismatch
            }),
            r matches Ok(ops) ==> {
                &&& self.stage() matches Stage::Diffed { regions, .. }
                &&& ops@ == fetch(self.topology(), store.held(), regions@)
            },
    {
        match &self.stage {
            Stage::Diffed { regions, .. } => {
                if !store.topo().same_as(&self.topo) {
                    return Err(RoundError::TopologyMismatch);
                }
                let ops = fetch_ops(store, regions);
                proof {
                    lemma_fetch_alike(
                        store.grid(),
                        self.topo,
                        store.held(),
                        regions@,
                        regions@.len() as int,
                    );
                }
                Ok(ops)
            },
            _ => Err(RoundError::WrongState),
        }
    }

    /// Fourth step: the operations sent and the operations received.
    /// Counts their sizes.
    pub fn deliver(self, outgoing: &Vec<Op>, incoming: Vec<Op>) -> (r: Result<Round, RoundError>)
        requires
            self.wf(),
        ensures
            r.is_ok() <==> self.deliver_error(outgoing@, incoming@).is_none(),
            r matches Err(e) ==> self.deliver_error(outgoing@, incoming@) == Some(e),
            r matches Ok(next) ==> {
                &&& next.wf()
                &&& next.topology() == self.topology()
                &&& next.now_micros() == self.now_micros()
                &&& self.stage() matches Stage::Diffed { stats: before, .. }
                &&& next.stage() matches Stage::OpsExchanged { incoming: ops, stats }
                &&& ops == incoming
                &&& stats.region_data_sent == before.region_data_sent
                &&& stats.region_data_rcvd == before.region_data_rcvd
                &&& stats.op_data_sent == total_size(outgoing@)
                &&& stats.op_data_rcvd == total_size(incoming@)
                &&& stats.fits()
            },
    {
        match self.stage {
            Stage::Diffed { regions: _, stats } => {
                let total_sent = match sum_sizes(outgoing, stats.region_data_sent) {
                    Some(sum) => sum,
                    None => {
                        return Err(RoundError::Overflow);
                    },
                };
                let total_rcvd = match sum_sizes(&incoming, stats.region_data_rcvd) {
                    Some(sum) => sum,
                    None => {
                        return Err(RoundError::Overflow);
                    },
                };
                Ok(
                    Round {
                        topo: self.topo,
                        now: self.now,
                        stage: Stage::OpsExchanged {
                            incoming,
                            stats: TestNodeGossipRoundStats {
                                region_data_sent: stats.region_data_sent,
                                region_data_rcvd: stats.region_data_rcvd,
                                op_data_sent: total_sent - stats.region_data_sent,
                                op_data_rcvd: total_rcvd - stats.region_data_rcvd,
                            },
                        },
                    },
                )
            },
            _ => Err(RoundError::WrongState),
        }
    }

    /// Why the operations cannot be delivered in this round, if they cannot.
    pub open spec fn deliver_error(&self, outgoing: Seq<Op>, incoming: Seq<Op>) -> Option<
        RoundError,
    > {
        match self.stage() {
            Stage::Diffed { stats, .. } => {
                if stats.region_data_sent + total_size(outgoing) > u32::MAX
                    || stats.region_data_rcvd + total_size(incoming) > u32::MAX {
                    Some(RoundError::Overflow)
                } else {
                    None
                }
            },
            _ => Some(RoundError::WrongState),
        }
    }

    /// Why the round cannot be finished at the store, if it cannot.
    pub open spec fn finish_error<S: AccessOpStore>(&self, store: &S) -> Option<RoundError> {
        match self.stage() {
            Stage::OpsExchanged { incoming, .. } => {
                if !store.grid().same(self.topology()) {
                    Some(RoundError::TopologyMismatch)
                } else if store.held().len() + incoming@.len() > u32::MAX {
                    Some(RoundError::Overflow)
                } else {
                    None
                }
            },
            _ => Some(RoundError::WrongState),
        }
    }

    /// Whether the last step would succeed at the store.
    pub fn ready<S: AccessOpStore>(&self, store: &S) -> (r: bool)
        requires
            self.wf(),
            store.sound(),
        ensures
            r == self.finish_error(store).is_none(),
    {
        match &self.stage {
            Stage::OpsExchanged { incoming, .. } => store.topo().same_as(&self.topo) && has_room(
                store,
                incoming.len(),
            ),
            _ => false,
        }
    }

    /// Last step: the peer takes in the operations received. The only
    /// step that changes the peer; where it is refused, the peer is as before.
    pub fn finish<S: AccessOpStore>(self, store: &mut S) -> (r: Result<Round, RoundError>)
        requires
            self.wf(),
            old(store).sound(),
        ensures
            r.is_ok() <==> self.finish_error(old(store)).is_none(),
            r matches Err(e) ==> self.finish_error(old(store)) == Some(e) && *final(store) == *old(
                store,
            ),
            final(store).sound(),
            r matches Ok(next) ==> {
                &&& next.wf()
                &&& next.topology() == self.topology()
                &&& next.now_micros() == self.now_micros()
                &&& self.stage() matches Stage::OpsExchanged { incoming, stats }
                &&& next.stage() matches Stage::Done { stats: kept }
                &&& kept == stats
                &&& final(store).grid() == old(store).grid()
                &&& final(store).known() == old(store).known()
                &&& final(store).held() == old(store).held() + incoming@
            },
    {
        match self.stage {
            Stage::OpsExchanged { incoming, stats } => {
                if !store.topo().same_as(&self.topo) {
                    return Err(RoundError::TopologyMismatch);
                }
                if !has_room(store, incoming.len()) {
                    return Err(RoundError::Overflow);
                }
                integrate_ops(store, &incoming);
                Ok(Round { topo: self.topo, now: self.now, stage: Stage::Done { stats } })
            },
            _ => Err(RoundError::WrongState),
        }
    }
}

} // verus!
