//! After a round, the two peers have the same aggregate for every region
//! that the round compared.

use vstd::prelude::*;
use crate::aggregate::{lemma_in_bounds, lemma_in_concat, lemma_in_push};
use crate::arq::{Arq, arc_len, arc_spans, lemma_arc_len_range, lemma_arc_spans, lemma_intersect_spans};
use crate::coords::Topology;
use crate::op::{Op, points_of};
use crate::op_store::ops_in_region;
use crate::region::{Region, RegionBounds, RegionCoords, RegionData, apart, data_of, diff_row, diff_rows, grid_data, lemma_diff_reflexive, lemma_tiling_apart};
use crate::round::{common_spans, fetch, fetch_upto, offered, round_coords};

verus! {

/// Number of the operations whose grid points lie in the rectangle.
pub open spec fn ops_count(topo: Topology, ops: Seq<Op>, bounds: RegionBounds) -> nat {
    bounds.count(points_of(topo, ops))
}

/// Total size of the operations whose grid points lie in the rectangle.
pub open spec fn ops_size(topo: Topology, ops: Seq<Op>, bounds: RegionBounds) -> nat {
    bounds.size(points_of(topo, ops))
}

/// The aggregates of two collections of operations add up.
pub proof fn lemma_ops_concat(topo: Topology, a: Seq<Op>, b: Seq<Op>, bounds: RegionBounds)
    ensures
        ops_count(topo, a + b, bounds) == ops_count(topo, a, bounds) + ops_count(topo, b, bounds),
        ops_size(topo, a + b, bounds) == ops_size(topo, a, bounds) + ops_size(topo, b, bounds),
{
    assert(points_of(topo, a + b) =~= points_of(topo, a) + points_of(topo, b));
    lemma_in_concat(
        points_of(topo, a),
        points_of(topo, b),
        bounds.x.0 as int,
        bounds.x.1 as int,
        bounds.t.0 as int,
        bounds.t.1 as int,
    );
}

/// What a rectangle was asked for has, in that rectangle, the aggregate
/// of all; in a rectangle apart from it, none.
proof fn lemma_fetched(topo: Topology, ops: Seq<Op>, asked: RegionBounds, bounds: RegionBounds)
    ensures
        asked == bounds ==> ops_count(topo, ops_in_region(topo, ops, asked), bounds) == ops_count(
            topo,
            ops,
            bounds,
        ) && ops_size(topo, ops_in_region(topo, ops, asked), bounds) == ops_size(
            topo,
            ops,
            bounds,
        ),
        apart(asked, bounds) ==> ops_count(topo, ops_in_region(topo, ops, asked), bounds) == 0
            && ops_size(topo, ops_in_region(topo, ops, asked), bounds) == 0,
    decreases ops.len(),
{
    let pred = |op: Op| asked.contains(op.point(topo));
    if ops.len() == 0 {
        ops.lemma_filter_len(pred);
        assert(ops.filter(pred) =~= Seq::<Op>::empty());
        assert(points_of(topo, ops.filter(pred)) =~= points_of(topo, ops));
    } else {
        let front = ops.drop_last();
        let last = ops.last();
        assert(ops =~= front.push(last));
        lemma_fetched(topo, front, asked, bounds);
        front.lemma_filter_push(last, pred);
        let found = front.filter(pred);
        assert(points_of(topo, front.push(last)) =~= points_of(topo, front).push(last.point(topo)));
        assert(points_of(topo, found.push(last)) =~= points_of(topo, found).push(last.point(topo)));
        lemma_in_push(
            points_of(topo, front),
            last.point(topo),
            bounds.x.0 as int,
            bounds.x.1 as int,
            bounds.t.0 as int,
            bounds.t.1 as int,
        );
        lemma_in_push(
            points_of(topo, found),
            last.point(topo),
            bounds.x.0 as int,
            bounds.x.1 as int,
            bounds.t.0 as int,
            bounds.t.1 as int,
        );
    }
}

/// What is fetched for the first regions of a list does not depend on the rest.
proof fn lemma_fetch_prefix(
    topo: Topology,
    ops: Seq<Op>,
    d: Seq<Region>,
    e: Seq<Region>,
    n: int,
)
    requires
        n <= d.len(),
        n <= e.len(),
        forall|k: int| 0 <= k < n ==> d[k] == e[k],
    ensures
        fetch_upto(topo, ops, d, n) == fetch_upto(topo, ops, e, n),
    decreases n,
{
    if n > 0 {
        lemma_fetch_prefix(topo, ops, d, e, n - 1);
    }
}

/// What is fetched for two lists of regions, one after the other.
proof fn lemma_fetch_concat(topo: Topology, ops: Seq<Op>, d: Seq<Region>, e: Seq<Region>, m: int)
    requires
        0 <= m <= e.len(),
    ensures
        fetch_upto(topo, ops, d + e, d.len() + m) == fetch(topo, ops, d) + fetch_upto(
            topo,
            ops,
            e,
            m,
        ),
    decreases m,
{
    if m == 0 {
        lemma_fetch_prefix(topo, ops, d + e, d, d.len() as int);
        assert(fetch(topo, ops, d) + Seq::<Op>::empty() =~= fetch(topo, ops, d));
    } else {
        lemma_fetch_concat(topo, ops, d, e, m - 1);
        assert((d + e)[d.len() + m - 1] == e[m - 1]);
        let piece = ops_in_region(topo, ops, e[m - 1].coords.bounds());
        assert((fetch(topo, ops, d) + fetch_upto(topo, ops, e, m - 1)) + piece =~= fetch(
            topo,
            ops,
            d,
        ) + (fetch_upto(topo, ops, e, m - 1) + piece));
    }
}

/// Of what is fetched for the regions of a row that differ, the rectangle
/// `target` holds all that `ops` holds in it where the region at `at` is
/// the rectangle and differs, and nothing else.
proof fn lemma_row_fetched(
    topo: Topology,
    ops: Seq<Op>,
    row: Seq<RegionCoords>,
    a: Seq<RegionData>,
    b: Seq<RegionData>,
    m: int,
    target: RegionBounds,
    at: int,
)
    requires
        0 <= m <= row.len(),
        0 <= at < row.len() ==> row[at].bounds() == target,
        forall|j: int| 0 <= j < row.len() && j != at ==> apart((#[trigger] row[j]).bounds(), target),
    ensures
        ops_count(topo, fetch(topo, ops, diff_row(row, a, b, m)), target) == if 0 <= at < m && a[at]
            != b[at] {
            ops_count(topo, ops, target)
        } else {
            0
        },
        ops_size(topo, fetch(topo, ops, diff_row(row, a, b, m)), target) == if 0 <= at < m && a[at]
            != b[at] {
            ops_size(topo, ops, target)
        } else {
            0
        },
    decreases m,
{
    if m <= 0 {
        assert(fetch(topo, ops, diff_row(row, a, b, m)) =~= Seq::<Op>::empty());
        assert(points_of(topo, Seq::<Op>::empty()) =~= Seq::empty());
    } else {
        lemma_row_fetched(topo, ops, row, a, b, m - 1, target, at);
        let head = diff_row(row, a, b, m - 1);
        if a[m - 1] != b[m - 1] {
            let region = Region { coords: row[m - 1], data: a[m - 1] };
            let one = seq![region];
            assert(diff_row(row, a, b, m) == head + one);
            lemma_fetch_concat(topo, ops, head, one, 1);
            let piece = ops_in_region(topo, ops, region.coords.bounds());
            assert(fetch_upto(topo, ops, one, 0) =~= Seq::<Op>::empty());
            assert(fetch_upto(topo, ops, one, 1) =~= piece);
            lemma_ops_concat(topo, fetch(topo, ops, head), piece, target);
            lemma_fetched(topo, ops, row[m - 1].bounds(), target);
            if m - 1 != at {
                assert(apart(row[m - 1].bounds(), target));
            }
        } else {
            assert(diff_row(row, a, b, m) =~= head);
        }
    }
}

/// Whether every other region of the tiling lies apart from the region at `(i, j)`.
spec fn stands_apart(c: Seq<Seq<RegionCoords>>, i: int, j: int) -> bool {
    forall|k: int, l: int|
        0 <= k < c.len() && 0 <= l < c[k].len() && (k != i || l != j) ==> apart(
            (#[trigger] c[k][l]).bounds(),
            c[i][j].bounds(),
        )
}

/// Of what is fetched for the regions of the first `n` rows that differ,
/// the region at `(i, j)` holds all that `ops` holds in it where it
/// differs, and nothing else.
proof fn lemma_rows_fetched(
    topo: Topology,
    ops: Seq<Op>,
    c: Seq<Seq<RegionCoords>>,
    a: Seq<Seq<RegionData>>,
    b: Seq<Seq<RegionData>>,
    n: int,
    i: int,
    j: int,
)
    requires
        0 <= n <= c.len(),
        0 <= i < c.len(),
        0 <= j < c[i].len(),
        stands_apart(c, i, j),
    ensures
        ops_count(topo, fetch(topo, ops, diff_rows(c, a, b, n)), c[i][j].bounds()) == if i < n
            && a[i][j] != b[i][j] {
            ops_count(topo, ops, c[i][j].bounds())
        } else {
            0
        },
        ops_size(topo, fetch(topo, ops, diff_rows(c, a, b, n)), c[i][j].bounds()) == if i < n
            && a[i][j] != b[i][j] {
            ops_size(topo, ops, c[i][j].bounds())
        } else {
            0
        },
    decreases n,
{
    let target = c[i][j].bounds();
    if n <= 0 {
        assert(fetch(topo, ops, diff_rows(c, a, b, n)) =~= Seq::<Op>::empty());
        assert(points_of(topo, Seq::<Op>::empty()) =~= Seq::empty());
    } else {
        lemma_rows_fetched(topo, ops, c, a, b, n - 1, i, j);
        let head = diff_rows(c, a, b, n - 1);
        let row = c[n - 1];
        let tail = diff_row(row, a[n - 1], b[n - 1], row.len() as int);
        assert(diff_rows(c, a, b, n) == head + tail);
        lemma_fetch_concat(topo, ops, head, tail, tail.len() as int);
        lemma_ops_concat(topo, fetch(topo, ops, head), fetch(topo, ops, tail), target);
        let at = if n - 1 == i {
            j
        } else {
            -1
        };
        assert forall|l: int| 0 <= l < row.len() && l != at implies apart(
            (#[trigger] row[l]).bounds(),
            target,
        ) by {
            assert(apart(c[n - 1][l].bounds(), c[i][j].bounds()));
        }
        lemma_row_fetched(topo, ops, row, a[n - 1], b[n - 1], row.len() as int, target, at);
    }
}

/// Every other region of a round lies apart from the region at `(i, j)`.
proof fn lemma_round_apart(topo: Topology, a: Arq, b: Arq, now: int, i: int, j: int)
    requires
        topo.wf(),
        0 <= i < round_coords(topo, a, b, now).len(),
        0 <= j < round_coords(topo, a, b, now)[i].len(),
    ensures
        stands_apart(round_coords(topo, a, b, now), i, j),
{
    let c = round_coords(topo, a, b, now);
    let power = if a.power <= b.power {
        a.power as int
    } else {
        b.power as int
    };
    let spans = common_spans(a, b);
    lemma_arc_len_range(a.power, a.count);
    lemma_arc_len_range(b.power, b.count);
    lemma_arc_spans(a.start as int, arc_len(a.power, a.count));
    lemma_arc_spans(b.start as int, arc_len(b.power, b.count));
    lemma_intersect_spans(
        arc_spans(a.start as int, arc_len(a.power, a.count)),
        arc_spans(b.start as int, arc_len(b.power, b.count)),
    );
    topo.lemma_coords_in_range(0, now);
    assert forall|k: int, l: int|
        0 <= k < c.len() && 0 <= l < c[k].len() && (k != i || l != j) implies apart(
        (#[trigger] c[k][l]).bounds(),
        c[i][j].bounds(),
    ) by {
        lemma_tiling_apart(spans, power, topo.time_coord_at(now), k, l, i, j);
    }
}

/// After a round, both peers have the same aggregate for every region
/// that the round compared: in a region that differed each took in what
/// the other held, and no other region was touched.
pub proof fn lemma_round_settles(
    topo: Topology,
    a: Arq,
    b: Arq,
    now: int,
    mine: Seq<Op>,
    theirs: Seq<Op>,
    i: int,
    j: int,
)
    requires
        topo.wf(),
        mine.len() <= u32::MAX,
        theirs.len() <= u32::MAX,
        0 <= i < round_coords(topo, a, b, now).len(),
        0 <= j < round_coords(topo, a, b, now)[i].len(),
    ensures
        ops_count(
            topo,
            mine + offered(topo, theirs, mine, round_coords(topo, a, b, now)),
            round_coords(topo, a, b, now)[i][j].bounds(),
        ) == ops_count(
            topo,
            theirs + offered(topo, mine, theirs, round_coords(topo, a, b, now)),
            round_coords(topo, a, b, now)[i][j].bounds(),
        ),
        ops_size(
            topo,
            mine + offered(topo, theirs, mine, round_coords(topo, a, b, now)),
            round_coords(topo, a, b, now)[i][j].bounds(),
        ) == ops_size(
            topo,
            theirs + offered(topo, mine, theirs, round_coords(topo, a, b, now)),
            round_coords(topo, a, b, now)[i][j].bounds(),
        ),
{
    let c = round_coords(topo, a, b, now);
    let target = c[i][j].bounds();
    lemma_round_apart(topo, a, b, now, i, j);
    let da = grid_data(points_of(topo, mine), c);
    let db = grid_data(points_of(topo, theirs), c);
    assert(da[i][j] == data_of(points_of(topo, mine), target));
    assert(db[i][j] == data_of(points_of(topo, theirs), target));
    lemma_rows_fetched(topo, theirs, c, db, da, c.len() as int, i, j);
    lemma_rows_fetched(topo, mine, c, da, db, c.len() as int, i, j);
    lemma_ops_concat(topo, mine, offered(topo, theirs, mine, c), target);
    lemma_ops_concat(topo, theirs, offered(topo, mine, theirs, c), target);
    lemma_in_bounds(
        points_of(topo, mine),
        target.x.0 as int,
        target.x.1 as int,
        target.t.0 as int,
        target.t.1 as int,
    );
    lemma_in_bounds(
        points_of(topo, theirs),
        target.x.0 as int,
        target.x.1 as int,
        target.t.0 as int,
        target.t.1 as int,
    );
}

/// After a round, a further round at the same instant hands nothing
/// over: the digests of the two peers agree.
pub proof fn lemma_round_is_final(
    topo: Topology,
    a: Arq,
    b: Arq,
    now: int,
    mine: Seq<Op>,
    theirs: Seq<Op>,
)
    requires
        topo.wf(),
        mine.len() <= u32::MAX,
        theirs.len() <= u32::MAX,
    ensures
        offered(
            topo,
            mine + offered(topo, theirs, mine, round_coords(topo, a, b, now)),
            theirs + offered(topo, mine, theirs, round_coords(topo, a, b, now)),
            round_coords(topo, a, b, now),
        ) == Seq::<Op>::empty(),
        offered(
            topo,
            theirs + offered(topo, mine, theirs, round_coords(topo, a, b, now)),
            mine + offered(topo, theirs, mine, round_coords(topo, a, b, now)),
            round_coords(topo, a, b, now),
        ) == Seq::<Op>::empty(),
{
    let c = round_coords(topo, a, b, now);
    let after_mine = mine + offered(topo, theirs, mine, c);
    let after_theirs = theirs + offered(topo, mine, theirs, c);
    let da = grid_data(points_of(topo, after_mine), c);
    let db = grid_data(points_of(topo, after_theirs), c);
    assert forall|i: int, j: int| 0 <= i < c.len() && 0 <= j < c[i].len() implies da[i][j]
        == db[i][j] by {
        lemma_round_settles(topo, a, b, now, mine, theirs, i, j);
    }
    assert(da =~~= db);
    lemma_diff_reflexive(c, da);
}

} // verus!
