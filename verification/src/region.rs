//! Regions of the grid and their aggregates.

use vstd::prelude::*;
use kitsune_p2p_timestamp::Timestamp;
use crate::aggregate::{GridPoint, count_in, size_in, lemma_in_none};
use crate::arq::{ArqSet, Span, spans_contain, spans_normal};
use crate::coords::Topology;
use crate::segment::{Segment, MAX_POWER, span_segments, tile_span, lemma_span_ascend, lemma_span_segments, lemma_span_covered};
use crate::time::timestamp_micros;

verus! {

/// Aggregate of the operations of one region.
#[derive(Clone, Copy, Debug, PartialEq, Eq, Structural)]
pub struct RegionData {
    /// Number of operations.
    pub count: u32,
    /// Sum of their sizes, in bytes.
    pub size: u64,
}

impl RegionData {
    /// The aggregate of no operations.
    pub fn zero() -> (r: RegionData)
        ensures
            r.count == 0,
            r.size == 0,
    {
        RegionData { count: 0, size: 0 }
    }

    /// Whether two aggregates agree in both fields.
    pub fn same_as(&self, other: &RegionData) -> (r: bool)
        ensures
            r == (*self == *other),
    {
        *self == *other
    }
}

/// An axis-aligned rectangle of the grid. Both corners belong to it: the
/// rectangle holds the coordinates from `x.0` to `x.1` and from `t.0` to
/// `t.1`, and is empty where a second bound lies below its first.
#[derive(Clone, Copy, Debug)]
pub struct RegionBounds {
    /// First and last space coordinate.
    pub x: (u32, u32),
    /// First and last time coordinate.
    pub t: (u32, u32),
}

impl RegionBounds {
    /// Whether the grid point lies in the rectangle.
    pub open spec fn contains(self, p: GridPoint) -> bool {
        p.within(self.x.0 as int, self.x.1 as int, self.t.0 as int, self.t.1 as int)
    }

    /// Number of the points that lie in the rectangle.
    pub open spec fn count(self, points: Seq<GridPoint>) -> nat {
        count_in(points, self.x.0 as int, self.x.1 as int, self.t.0 as int, self.t.1 as int)
    }

    /// Total size of the points that lie in the rectangle.
    pub open spec fn size(self, points: Seq<GridPoint>) -> nat {
        size_in(points, self.x.0 as int, self.x.1 as int, self.t.0 as int, self.t.1 as int)
    }

    /// A rectangle in which none of the points lies has the aggregate zero.
    pub proof fn lemma_nothing_inside(self, points: Seq<GridPoint>)
        requires
            forall|i: int| 0 <= i < points.len() ==> !self.contains(#[trigger] points[i]),
        ensures
            self.count(points) == 0,
            self.size(points) == 0,
    {
        lemma_in_none(
            points,
            self.x.0 as int,
            self.x.1 as int,
            self.t.0 as int,
            self.t.1 as int,
        );
    }
}

/// The aggregate of the points that lie in `bounds`.
pub open spec fn data_of(points: Seq<GridPoint>, bounds: RegionBounds) -> RegionData {
    RegionData { count: bounds.count(points) as u32, size: bounds.size(points) as u64 }
}

/// A region, named by its segment on either axis.
#[derive(Clone, Copy, Debug, PartialEq, Eq, Structural)]
pub struct RegionCoords {
    /// The segment of the space axis.
    pub space: Segment,
    /// The segment of the time axis.
    pub time: Segment,
}

impl RegionCoords {
    /// Both segments are well-formed.
    pub open spec fn wf(self) -> bool {
        self.space.wf() && self.time.wf()
    }

    /// The rectangle that the region covers.
    pub open spec fn bounds(self) -> RegionBounds {
        RegionBounds {
            x: (self.space.first() as u32, self.space.last() as u32),
            t: (self.time.first() as u32, self.time.last() as u32),
        }
    }

    /// The rectangle that the region covers.
    pub fn to_bounds(&self) -> (r: RegionBounds)
        requires
            self.wf(),
        ensures
            r == self.bounds(),
    {
        RegionBounds { x: self.space.bounds(), t: self.time.bounds() }
    }
}

/// A region with the aggregate that one peer has for it.
#[derive(Clone, Copy, Debug, PartialEq, Eq, Structural)]
pub struct Region {
    /// Which region.
    pub coords: RegionCoords,
    /// The aggregate of its operations.
    pub data: RegionData,
}

/// What one region costs in a digest, in bytes: two segments of five bytes
/// each, a count of four bytes and a size of eight.
pub const REGION_MASS: u32 = 22;

impl Region {
    /// What one region costs in a digest, in bytes.
    pub const MASS: u32 = REGION_MASS;
}

/// The power at which an arc set of the given power is cut: no segment is
/// wider than the ring.
pub open spec fn tiling_power(power: int) -> nat {
    if power >= MAX_POWER {
        MAX_POWER as nat
    } else if power <= 0 {
        0
    } else {
        power as nat
    }
}

/// The segments of the first `n` stretches, stretch after stretch.
pub open spec fn segments_upto(spans: Seq<Span>, max_power: nat, n: int) -> Seq<Segment>
    decreases n,
{
    if n <= 0 {
        Seq::empty()
    } else {
        segments_upto(spans, max_power, n - 1) + span_segments(
            spans[n - 1].first as int,
            spans[n - 1].last as int,
            max_power,
        )
    }
}

/// The segments that the stretches are cut into.
pub open spec fn spans_segments(spans: Seq<Span>, max_power: nat) -> Seq<Segment> {
    segments_upto(spans, max_power, spans.len() as int)
}

/// Every segment of the first `n` stretches is well-formed.
pub proof fn lemma_segments_wf(spans: Seq<Span>, max_power: nat, n: int)
    requires
        max_power <= MAX_POWER,
        0 <= n <= spans.len(),
    ensures
        forall|i: int|
            0 <= i < segments_upto(spans, max_power, n).len() ==> (#[trigger] segments_upto(
                spans,
                max_power,
                n,
            )[i]).wf(),
    decreases n,
{
    if n > 0 {
        let head = segments_upto(spans, max_power, n - 1);
        let tail = span_segments(spans[n - 1].first as int, spans[n - 1].last as int, max_power);
        lemma_segments_wf(spans, max_power, n - 1);
        lemma_span_segments(spans[n - 1].first as int, spans[n - 1].last as int, max_power);
        let s = segments_upto(spans, max_power, n);
        assert forall|i: int| 0 <= i < s.len() implies (#[trigger] s[i]).wf() by {
            if i < head.len() {
                assert(s[i] == head[i]);
            } else {
                assert(s[i] == tail[i - head.len()]);
            }
        }
    }
}

/// A coordinate of one of the first `n` stretches lies in one of their
/// segments. Returns its index.
pub proof fn lemma_segments_cover(spans: Seq<Span>, max_power: nat, n: int, k: int, x: int) -> (i:
    int)
    requires
        max_power <= MAX_POWER,
        0 <= k < n <= spans.len(),
        spans[k].contains(x),
    ensures
        0 <= i < segments_upto(spans, max_power, n).len(),
        segments_upto(spans, max_power, n)[i].contains(x),
    decreases n,
{
    let head = segments_upto(spans, max_power, n - 1);
    let tail = span_segments(spans[n - 1].first as int, spans[n - 1].last as int, max_power);
    let s = segments_upto(spans, max_power, n);
    if k == n - 1 {
        let j = lemma_span_covered(spans[k].first as int, spans[k].last as int, max_power, x);
        assert(s[head.len() + j] == tail[j]);
        head.len() + j
    } else {
        let i = lemma_segments_cover(spans, max_power, n - 1, k, x);
        assert(s[i] == head[i]);
        i
    }
}

/// Each segment of the first `n` stretches lies on one of them. Returns which.
pub proof fn lemma_segments_within(spans: Seq<Span>, max_power: nat, n: int, i: int) -> (k: int)
    requires
        max_power <= MAX_POWER,
        0 <= n <= spans.len(),
        0 <= i < segments_upto(spans, max_power, n).len(),
    ensures
        0 <= k < n,
        spans[k].first <= segments_upto(spans, max_power, n)[i].first(),
        segments_upto(spans, max_power, n)[i].last() <= spans[k].last,
    decreases n,
{
    let head = segments_upto(spans, max_power, n - 1);
    let tail = span_segments(spans[n - 1].first as int, spans[n - 1].last as int, max_power);
    let s = segments_upto(spans, max_power, n);
    if i < head.len() {
        assert(s[i] == head[i]);
        lemma_segments_within(spans, max_power, n - 1, i)
    } else {
        assert(s[i] == tail[i - head.len()]);
        lemma_span_segments(spans[n - 1].first as int, spans[n - 1].last as int, max_power);
        n - 1
    }
}

/// Among the segments of normal stretches, later ones lie beyond earlier ones.
pub proof fn lemma_segments_ascend(spans: Seq<Span>, max_power: nat, n: int, a: int, b: int)
    requires
        spans_normal(spans),
        max_power <= MAX_POWER,
        0 <= n <= spans.len(),
        0 <= a < b < segments_upto(spans, max_power, n).len(),
    ensures
        segments_upto(spans, max_power, n)[a].last() < segments_upto(
            spans,
            max_power,
            n,
        )[b].first(),
    decreases n,
{
    let head = segments_upto(spans, max_power, n - 1);
    let tail = span_segments(spans[n - 1].first as int, spans[n - 1].last as int, max_power);
    let s = segments_upto(spans, max_power, n);
    if b < head.len() {
        assert(s[a] == head[a]);
        assert(s[b] == head[b]);
        lemma_segments_ascend(spans, max_power, n - 1, a, b);
    } else if a >= head.len() {
        assert(s[a] == tail[a - head.len()]);
        assert(s[b] == tail[b - head.len()]);
        lemma_span_ascend(
            spans[n - 1].first as int,
            spans[n - 1].last as int,
            max_power,
            a - head.len(),
            b - head.len(),
        );
    } else {
        assert(s[a] == head[a]);
        assert(s[b] == tail[b - head.len()]);
        let k = lemma_segments_within(spans, max_power, n - 1, a);
        crate::arq::lemma_spans_ascend(spans, k, n - 1);
        lemma_span_segments(spans[n - 1].first as int, spans[n - 1].last as int, max_power);
    }
}

/// The contents of the rows.
pub open spec fn rows<T>(v: Seq<Vec<T>>) -> Seq<Seq<T>> {
    Seq::new(v.len(), |i: int| v[i]@)
}

/// The regions of every pair of a space segment and a time segment: a row
/// for each space segment.
pub open spec fn grid_coords(space: Seq<Segment>, time: Seq<Segment>) -> Seq<Seq<RegionCoords>> {
    Seq::new(
        space.len(),
        |i: int| Seq::new(time.len(), |j: int| RegionCoords { space: space[i], time: time[j] }),
    )
}

/// The regions that cover the stretches `spans` from the beginning of time
/// up to the time coordinate `last_time`.
pub open spec fn tiling(spans: Seq<Span>, power: int, last_time: int) -> Seq<Seq<RegionCoords>> {
    grid_coords(
        spans_segments(spans, tiling_power(power)),
        span_segments(0, last_time, MAX_POWER as nat),
    )
}

/// The aggregate of `points` for each of the regions.
pub open spec fn grid_data(points: Seq<GridPoint>, coords: Seq<Seq<RegionCoords>>) -> Seq<
    Seq<RegionData>,
> {
    Seq::new(
        coords.len(),
        |i: int| Seq::new(coords[i].len(), |j: int| data_of(points, coords[i][j].bounds())),
    )
}

/// Number of entries in the first `n` rows.
pub open spec fn total_len<T>(r: Seq<Seq<T>>, n: int) -> nat
    decreases n,
{
    if n <= 0 {
        0
    } else {
        total_len(r, n - 1) + r[n - 1].len()
    }
}

/// Whether `data` has an entry for each of the regions `coords`.
pub open spec fn same_shape<A, B>(coords: Seq<Seq<A>>, data: Seq<Seq<B>>) -> bool {
    &&& coords.len() == data.len()
    &&& forall|i: int| 0 <= i < coords.len() ==> (#[trigger] coords[i]).len() == data[i].len()
}

/// Every region of the tiling is well-formed.
pub proof fn lemma_tiling_wf(spans: Seq<Span>, power: int, last_time: int)
    requires
        0 <= last_time <= u32::MAX,
    ensures
        forall|i: int, j: int|
            0 <= i < tiling(spans, power, last_time).len() && 0 <= j < tiling(
                spans,
                power,
                last_time,
            )[i].len() ==> (#[trigger] tiling(spans, power, last_time)[i][j]).wf(),
{
    let space = spans_segments(spans, tiling_power(power));
    let time = span_segments(0, last_time, MAX_POWER as nat);
    lemma_segments_wf(spans, tiling_power(power), spans.len() as int);
    lemma_span_segments(0, last_time, MAX_POWER as nat);
    let g = tiling(spans, power, last_time);
    assert forall|i: int, j: int| 0 <= i < g.len() && 0 <= j < g[i].len() implies (
    #[trigger] g[i][j]).wf() by {
        assert(space[i].wf());
        assert(time[j].wf());
    }
}

/// A point of the stretches that is no later than `last_time` lies in a
/// region of the tiling. Returns the row and the place in the row.
pub proof fn lemma_tiling_covers(spans: Seq<Span>, power: int, last_time: int, p: GridPoint) -> (w:
    (int, int))
    requires
        0 <= last_time <= u32::MAX,
        spans_contain(spans, p.x as int),
        p.t <= last_time,
    ensures
        0 <= w.0 < tiling(spans, power, last_time).len(),
        0 <= w.1 < tiling(spans, power, last_time)[w.0].len(),
        tiling(spans, power, last_time)[w.0][w.1].wf(),
        tiling(spans, power, last_time)[w.0][w.1].bounds().contains(p),
{
    let space = spans_segments(spans, tiling_power(power));
    let time = span_segments(0, last_time, MAX_POWER as nat);
    let k = choose|k: int| 0 <= k < spans.len() && 0 <= k && (#[trigger] spans[k]).contains(p.x as int);
    let i = lemma_segments_cover(spans, tiling_power(power), spans.len() as int, k, p.x as int);
    let j = lemma_span_covered(0, last_time, MAX_POWER as nat, p.t as int);
    lemma_tiling_wf(spans, power, last_time);
    let g = tiling(spans, power, last_time);
    assert(g[i][j].wf());
    assert(g[i][j].space == space[i]);
    assert(g[i][j].time == time[j]);
    (i, j)
}

/// Whether the two rectangles lie apart on one of the axes, so that no
/// point lies in both.
pub open spec fn apart(a: RegionBounds, b: RegionBounds) -> bool {
    a.x.1 < b.x.0 || b.x.1 < a.x.0 || a.t.1 < b.t.0 || b.t.1 < a.t.0
}

/// Two regions of the tiling of normal stretches lie apart.
pub proof fn lemma_tiling_apart(
    spans: Seq<Span>,
    power: int,
    last_time: int,
    i: int,
    j: int,
    k: int,
    l: int,
)
    requires
        spans_normal(spans),
        0 <= last_time <= u32::MAX,
        0 <= i < tiling(spans, power, last_time).len(),
        0 <= j < tiling(spans, power, last_time)[i].len(),
        0 <= k < tiling(spans, power, last_time).len(),
        0 <= l < tiling(spans, power, last_time)[k].len(),
        i != k || j != l,
    ensures
        apart(
            tiling(spans, power, last_time)[i][j].bounds(),
            tiling(spans, power, last_time)[k][l].bounds(),
        ),
{
    let space = spans_segments(spans, tiling_power(power));
    let time = span_segments(0, last_time, MAX_POWER as nat);
    let g = tiling(spans, power, last_time);
    lemma_tiling_wf(spans, power, last_time);
    assert(g[i][j].wf());
    assert(g[k][l].wf());
    assert(g[i][j].space == space[i] && g[i][j].time == time[j]);
    assert(g[k][l].space == space[k] && g[k][l].time == time[l]);
    vstd::arithmetic::power2::lemma_pow2_pos(space[i].power as nat);
    vstd::arithmetic::power2::lemma_pow2_pos(space[k].power as nat);
    vstd::arithmetic::power2::lemma_pow2_pos(time[j].power as nat);
    vstd::arithmetic::power2::lemma_pow2_pos(time[l].power as nat);
    if i < k {
        lemma_segments_ascend(spans, tiling_power(power), spans.len() as int, i, k);
    } else if k < i {
        lemma_segments_ascend(spans, tiling_power(power), spans.len() as int, k, i);
    } else if j < l {
        lemma_span_ascend(0, last_time, MAX_POWER as nat, j, l);
    } else {
        lemma_span_ascend(0, last_time, MAX_POWER as nat, l, j);
    }
}

/// The regions among the first `n` of a row whose two aggregates differ,
/// each with the first of the two.
pub open spec fn diff_row(
    c: Seq<RegionCoords>,
    a: Seq<RegionData>,
    b: Seq<RegionData>,
    n: int,
) -> Seq<Region>
    decreases n,
{
    if n <= 0 {
        Seq::empty()
    } else {
        diff_row(c, a, b, n - 1) + if a[n - 1] != b[n - 1] {
            seq![Region { coords: c[n - 1], data: a[n - 1] }]
        } else {
            Seq::empty()
        }
    }
}

/// The regions of the first `n` rows whose two aggregates differ, row after row.
pub open spec fn diff_rows(
    c: Seq<Seq<RegionCoords>>,
    a: Seq<Seq<RegionData>>,
    b: Seq<Seq<RegionData>>,
    n: int,
) -> Seq<Region>
    decreases n,
{
    if n <= 0 {
        Seq::empty()
    } else {
        diff_rows(c, a, b, n - 1) + diff_row(c[n - 1], a[n - 1], b[n - 1], c[n - 1].len() as int)
    }
}

/// The regions for which the aggregates `a` differ from the aggregates
/// `b`, each with its aggregate in `a`, in the order of the tiling.
pub open spec fn diff_regions(
    c: Seq<Seq<RegionCoords>>,
    a: Seq<Seq<RegionData>>,
    b: Seq<Seq<RegionData>>,
) -> Seq<Region> {
    diff_rows(c, a, b, c.len() as int)
}

proof fn lemma_diff_row_same(c: Seq<RegionCoords>, a: Seq<RegionData>, n: int)
    ensures
        diff_row(c, a, a, n) == Seq::<Region>::empty(),
    decreases n,
{
    if n > 0 {
        lemma_diff_row_same(c, a, n - 1);
    }
}

proof fn lemma_diff_rows_same(c: Seq<Seq<RegionCoords>>, a: Seq<Seq<RegionData>>, n: int)
    ensures
        diff_rows(c, a, a, n) == Seq::<Region>::empty(),
    decreases n,
{
    if n > 0 {
        lemma_diff_rows_same(c, a, n - 1);
        lemma_diff_row_same(c[n - 1], a[n - 1], c[n - 1].len() as int);
    }
}

/// Aggregates do not differ from themselves: no region is reported.
pub proof fn lemma_diff_reflexive(c: Seq<Seq<RegionCoords>>, a: Seq<Seq<RegionData>>)
    ensures
        diff_regions(c, a, a) == Seq::<Region>::empty(),
{
    lemma_diff_rows_same(c, a, c.len() as int);
}

proof fn lemma_diff_row_reports(
    c: Seq<RegionCoords>,
    a: Seq<RegionData>,
    b: Seq<RegionData>,
    n: int,
    j: int,
) -> (k: int)
    requires
        0 <= j < n,
        a[j] != b[j],
    ensures
        0 <= k < diff_row(c, a, b, n).len(),
        diff_row(c, a, b, n)[k] == (Region { coords: c[j], data: a[j] }),
    decreases n,
{
    let head = diff_row(c, a, b, n - 1);
    if j == n - 1 {
        assert(diff_row(c, a, b, n)[head.len() as int] == (Region { coords: c[j], data: a[j] }));
        head.len() as int
    } else {
        let k = lemma_diff_row_reports(c, a, b, n - 1, j);
        assert(diff_row(c, a, b, n)[k] == head[k]);
        k
    }
}

proof fn lemma_diff_rows_report(
    c: Seq<Seq<RegionCoords>>,
    a: Seq<Seq<RegionData>>,
    b: Seq<Seq<RegionData>>,
    n: int,
    i: int,
    j: int,
) -> (k: int)
    requires
        0 <= i < n,
        0 <= j < c[i].len(),
        a[i][j] != b[i][j],
    ensures
        0 <= k < diff_rows(c, a, b, n).len(),
        diff_rows(c, a, b, n)[k] == (Region { coords: c[i][j], data: a[i][j] }),
    decreases n,
{
    let head = diff_rows(c, a, b, n - 1);
    if i == n - 1 {
        let k = lemma_diff_row_reports(c[i], a[i], b[i], c[i].len() as int, j);
        assert(diff_rows(c, a, b, n)[head.len() + k] == diff_row(
            c[i],
            a[i],
            b[i],
            c[i].len() as int,
        )[k]);
        head.len() + k
    } else {
        let k = lemma_diff_rows_report(c, a, b, n - 1, i, j);
        assert(diff_rows(c, a, b, n)[k] == head[k]);
        k
    }
}

proof fn lemma_diff_row_wf(c: Seq<RegionCoords>, a: Seq<RegionData>, b: Seq<RegionData>, n: int)
    requires
        n <= c.len(),
        forall|j: int| 0 <= j < c.len() ==> (#[trigger] c[j]).wf(),
    ensures
        forall|k: int|
            0 <= k < diff_row(c, a, b, n).len() ==> (#[trigger] diff_row(c, a, b, n)[k]).coords.wf(),
    decreases n,
{
    if n > 0 {
        lemma_diff_row_wf(c, a, b, n - 1);
        let head = diff_row(c, a, b, n - 1);
        let r = diff_row(c, a, b, n);
        assert forall|k: int| 0 <= k < r.len() implies (#[trigger] r[k]).coords.wf() by {
            if k < head.len() {
                assert(r[k] == head[k]);
            } else {
                assert(r[k].coords == c[n - 1]);
            }
        }
    }
}

proof fn lemma_diff_rows_wf(
    c: Seq<Seq<RegionCoords>>,
    a: Seq<Seq<RegionData>>,
    b: Seq<Seq<RegionData>>,
    n: int,
)
    requires
        n <= c.len(),
        forall|i: int, j: int|
            0 <= i < c.len() && 0 <= j < c[i].len() ==> (#[trigger] c[i][j]).wf(),
    ensures
        forall|k: int|
            0 <= k < diff_rows(c, a, b, n).len() ==> (#[trigger] diff_rows(
                c,
                a,
                b,
                n,
            )[k]).coords.wf(),
    decreases n,
{
    if n > 0 {
        lemma_diff_rows_wf(c, a, b, n - 1);
        let row = c[n - 1];
        assert forall|j: int| 0 <= j < row.len() implies (#[trigger] row[j]).wf() by {
            assert(c[n - 1][j].wf());
        }
        lemma_diff_row_wf(row, a[n - 1], b[n - 1], row.len() as int);
        let head = diff_rows(c, a, b, n - 1);
        let tail = diff_row(row, a[n - 1], b[n - 1], row.len() as int);
        let r = diff_rows(c, a, b, n);
        assert forall|k: int| 0 <= k < r.len() implies (#[trigger] r[k]).coords.wf() by {
            if k < head.len() {
                assert(r[k] == head[k]);
            } else {
                assert(r[k] == tail[k - head.len()]);
            }
        }
    }
}

/// The regions reported for well-formed regions are well-formed.
pub proof fn lemma_diff_wf(
    c: Seq<Seq<RegionCoords>>,
    a: Seq<Seq<RegionData>>,
    b: Seq<Seq<RegionData>>,
)
    requires
        forall|i: int, j: int|
            0 <= i < c.len() && 0 <= j < c[i].len() ==> (#[trigger] c[i][j]).wf(),
    ensures
        forall|k: int|
            0 <= k < diff_regions(c, a, b).len() ==> (#[trigger] diff_regions(
                c,
                a,
                b,
            )[k]).coords.wf(),
{
    lemma_diff_rows_wf(c, a, b, c.len() as int);
}

/// A region whose aggregates differ is reported. Returns its place in the report.
pub proof fn lemma_diff_reports(
    c: Seq<Seq<RegionCoords>>,
    a: Seq<Seq<RegionData>>,
    b: Seq<Seq<RegionData>>,
    i: int,
    j: int,
) -> (k: int)
    requires
        0 <= i < c.len(),
        0 <= j < c[i].len(),
        a[i][j] != b[i][j],
    ensures
        0 <= k < diff_regions(c, a, b).len(),
        diff_regions(c, a, b)[k] == (Region { coords: c[i][j], data: a[i][j] }),
{
    lemma_diff_rows_report(c, a, b, c.len() as int, i, j)
}

/// Which regions a digest speaks of: those that cover an arc set up to an instant.
#[derive(Debug)]
pub struct RegionCoordSetXtcs {
    max_time: Timestamp,
    arq_set: ArqSet,
}

impl RegionCoordSetXtcs {
    /// The instant up to which the regions reach, in microseconds since the UNIX epoch.
    pub closed spec fn max_micros(&self) -> int {
        timestamp_micros(self.max_time) as int
    }

    /// The stretches of the ring that the regions cover.
    pub closed spec fn spans(&self) -> Seq<Span> {
        self.arq_set@
    }

    /// Binary logarithm of the width of the widest space segment.
    pub closed spec fn power(&self) -> int {
        self.arq_set.power()
    }

    /// The regions, a row for each space segment.
    pub open spec fn coords(&self, topo: Topology) -> Seq<Seq<RegionCoords>> {
        tiling(self.spans(), self.power(), topo.time_coord_at(self.max_micros()))
    }

    /// The regions that cover `arq_set` up to the instant `max_time`.
    pub fn new(max_time: Timestamp, arq_set: ArqSet) -> (r: RegionCoordSetXtcs)
        ensures
            r.max_micros() == timestamp_micros(max_time),
            r.spans() == arq_set@,
            r.power() == arq_set.power(),
    {
        RegionCoordSetXtcs { max_time, arq_set }
    }

    /// A copy.
    pub fn duplicate(&self) -> (r: RegionCoordSetXtcs)
        ensures
            r.max_micros() == self.max_micros(),
            r.spans() == self.spans(),
            r.power() == self.power(),
    {
        RegionCoordSetXtcs { max_time: self.max_time, arq_set: self.arq_set.duplicate() }
    }

    /// Whether the two speak of the same arc set up to the same instant,
    /// and so, under one topology, of the same regions.
    pub fn same_as(&self, other: &RegionCoordSetXtcs) -> (r: bool)
        ensures
            r == (self.max_micros() == other.max_micros() && self.spans() == other.spans()
                && self.power() == other.power()),
            r ==> forall|topo: Topology| self.coords(topo) == other.coords(topo),
    {
        self.max_time.as_micros() == other.max_time.as_micros() && self.arq_set.same_as(
            &other.arq_set,
        )
    }

    /// The regions, a row for each space segment; within a row, from the
    /// beginning of time on.
    pub fn region_coords_nested(&self, topo: &Topology) -> (r: Vec<Vec<RegionCoords>>)
        requires
            topo.wf(),
        ensures
            rows(r@) == self.coords(*topo),
            forall|i: int, j: int|
                0 <= i < r@.len() && 0 <= j < r@[i]@.len() ==> (#[trigger] r@[i]@[j]).wf(),
    {
        let power: u8 = if self.arq_set.max_power() > MAX_POWER {
            MAX_POWER
        } else {
            self.arq_set.max_power()
        };
        let last_time = topo.time_coord(self.max_time);
        let time = tile_span(0, last_time, MAX_POWER);
        let spans = self.arq_set.to_bounds();
        let ghost goal = self.coords(*topo);
        let ghost all_space = spans_segments(spans@, power as nat);
        let mut out: Vec<Vec<RegionCoords>> = Vec::new();
        let mut k: usize = 0;
        proof {
            lemma_tiling_wf(self.spans(), self.power(), last_time as int);
        }
        while k < spans.len()
            invariant
                k <= spans@.len(),
                spans@ == self.spans(),
                power as nat == tiling_power(self.power()),
                time@ == span_segments(0, last_time as int, MAX_POWER as nat),
                goal == grid_coords(all_space, time@),
                all_space == spans_segments(spans@, power as nat),
                out@.len() == segments_upto(spans@, power as nat, k as int).len(),
                forall|i: int|
                    0 <= i < out@.len() ==> (#[trigger] out@[i])@ == Seq::new(
                        time@.len(),
                        |j: int|
                            RegionCoords {
                                space: segments_upto(spans@, power as nat, k as int)[i],
                                time: time@[j],
                            },
                    ),
            decreases spans@.len() - k,
        {
            let space = tile_span(spans[k].first, spans[k].last, power);
            let ghost before = segments_upto(spans@, power as nat, k as int);
            let ghost after = segments_upto(spans@, power as nat, k + 1);
            assert(after == before + space@);
            let mut i: usize = 0;
            while i < space.len()
                invariant
                    i <= space@.len(),
                    after == before + space@,
                    out@.len() == before.len() + i,
                    forall|m: int|
                        0 <= m < out@.len() ==> (#[trigger] out@[m])@ == Seq::new(
                            time@.len(),
                            |j: int| RegionCoords { space: after[m], time: time@[j] },
                        ),
                decreases space@.len() - i,
            {
                let mut row: Vec<RegionCoords> = Vec::new();
                let mut j: usize = 0;
                while j < time.len()
                    invariant
                        j <= time@.len(),
                        i < space@.len(),
                        row@.len() == j,
                        forall|n: int|
                            0 <= n < j ==> #[trigger] row@[n] == (RegionCoords {
                                space: space@[i as int],
                                time: time@[n],
                            }),
                    decreases time@.len() - j,
                {
                    row.push(RegionCoords { space: space[i], time: time[j] });
                    j = j + 1;
                }
                proof {
                    assert(after[before.len() + i] == space@[i as int]);
                    assert(row@ =~= Seq::new(
                        time@.len(),
                        |j: int| RegionCoords { space: after[before.len() + i], time: time@[j] },
                    ));
                }
                out.push(row);
                i = i + 1;
            }
            k = k + 1;
        }
        proof {
            assert(rows(out@) =~~= goal);
            assert forall|i: int, j: int|
                0 <= i < out@.len() && 0 <= j < out@[i]@.len() implies (#[trigger] out@[i]@[j]).wf() by {
                assert(rows(out@)[i][j] == out@[i]@[j]);
                assert(goal[i][j].wf());
            }
        }
        out
    }
}

/// A digest: for each region of a tiling, the aggregate that one peer has for it.
#[derive(Debug)]
pub struct RegionSetXtcs {
    /// Which regions the digest speaks of.
    pub coords: RegionCoordSetXtcs,
    /// Their aggregates, a row for each space segment.
    pub data: Vec<Vec<RegionData>>,
}

impl RegionSetXtcs {
    /// The aggregates, a row for each space segment.
    pub open spec fn aggregates(&self) -> Seq<Seq<RegionData>> {
        rows(self.data@)
    }

    /// Number of regions in the digest.
    pub open spec fn total(&self) -> nat {
        total_len(self.aggregates(), self.aggregates().len() as int)
    }

    /// The digest has an aggregate for each region of its tiling under `topo`.
    pub open spec fn fits(&self, topo: Topology) -> bool {
        same_shape(self.coords.coords(topo), self.aggregates())
    }

    /// A copy of the digest.
    pub fn duplicate(&self) -> (r: RegionSetXtcs)
        ensures
            r.coords.max_micros() == self.coords.max_micros(),
            r.coords.spans() == self.coords.spans(),
            r.coords.power() == self.coords.power(),
            r.aggregates() == self.aggregates(),
    {
        let mut data: Vec<Vec<RegionData>> = Vec::new();
        let mut i: usize = 0;
        while i < self.data.len()
            invariant
                i <= self.data@.len(),
                data@.len() == i,
                forall|m: int| 0 <= m < i ==> (#[trigger] data@[m])@ == self.data@[m]@,
            decreases self.data@.len() - i,
        {
            let src = &self.data[i];
            let mut row: Vec<RegionData> = Vec::new();
            let mut j: usize = 0;
            while j < src.len()
                invariant
                    j <= src@.len(),
                    row@ == src@.take(j as int),
                decreases src@.len() - j,
            {
                row.push(src[j]);
                assert(src@.take(j + 1) =~= src@.take(j as int).push(src@[j as int]));
                j = j + 1;
            }
            assert(src@.take(src@.len() as int) =~= src@);
            data.push(row);
            i = i + 1;
        }
        let r = RegionSetXtcs { coords: self.coords.duplicate(), data };
        assert(r.aggregates() =~~= self.aggregates());
        r
    }

    /// Whether the digest has an aggregate for each region of its tiling under `topo`.
    pub fn is_fit(&self, topo: &Topology) -> (r: bool)
        requires
            topo.wf(),
        ensures
            r == self.fits(*topo),
    {
        let coords = self.coords.region_coords_nested(topo);
        let ghost c = self.coords.coords(*topo);
        let ghost d = self.aggregates();
        if coords.len() != self.data.len() {
            return false;
        }
        let mut i: usize = 0;
        while i < coords.len()
            invariant
                i <= coords@.len(),
                coords@.len() == self.data@.len(),
                c == rows(coords@),
                d == rows(self.data@),
                c == self.coords.coords(*topo),
                d == self.aggregates(),
                forall|m: int| 0 <= m < i ==> (#[trigger] c[m]).len() == d[m].len(),
            decreases coords@.len() - i,
        {
            if coords[i].len() != self.data[i].len() {
                proof {
                    assert(c[i as int] == coords@[i as int]@);
                    assert(d[i as int] == self.data@[i as int]@);
                    assert(c[i as int].len() != d[i as int].len());
                    assert(!same_shape(c, d));
                }
                return false;
            }
            i = i + 1;
        }
        true
    }

    /// What the digest costs to send, in bytes, where that fits 32 bits.
    pub fn mass(&self) -> (r: Option<u32>)
        ensures
            match r {
                Some(m) => m == self.total() * REGION_MASS,
                None => self.total() * REGION_MASS > u32::MAX,
            },
    {
        let limit: usize = 195225786;
        let mut n: usize = 0;
        let mut i: usize = 0;
        let ghost r = self.aggregates();
        while i < self.data.len()
            invariant
                i <= self.data@.len(),
                r == rows(self.data@),
                r == self.aggregates(),
                n == total_len(r, i as int),
                n <= limit,
                limit == 195225786,
            decreases self.data@.len() - i,
        {
            let more = self.data[i].len();
            if more > limit - n {
                proof {
                    lemma_total_len_grows(r, i + 1, r.len() as int);
                }
                return None;
            }
            n = n + more;
            i = i + 1;
        }
        Some(n as u32 * REGION_MASS)
    }

    /// Number of regions in the digest.
    pub fn count(&self) -> (n: usize)
        requires
            self.total() <= usize::MAX,
        ensures
            n == self.total(),
    {
        let mut n: usize = 0;
        let mut i: usize = 0;
        let ghost r = self.aggregates();
        while i < self.data.len()
            invariant
                i <= self.data@.len(),
                r == rows(self.data@),
                n == total_len(r, i as int),
                total_len(r, r.len() as int) <= usize::MAX,
            decreases self.data@.len() - i,
        {
            proof {
                lemma_total_len_grows(r, i + 1, r.len() as int);
            }
            n = n + self.data[i].len();
            i = i + 1;
        }
        n
    }

    /// The regions for which this digest and `other` disagree, each with
    /// the aggregate of this digest, in the order of the tiling.
    pub fn diff(&self, other: &RegionSetXtcs, topo: &Topology) -> (r: Vec<Region>)
        requires
            topo.wf(),
            self.fits(*topo),
            other.fits(*topo),
            self.coords.coords(*topo) == other.coords.coords(*topo),
        ensures
            r@ == diff_regions(
                self.coords.coords(*topo),
                self.aggregates(),
                other.aggregates(),
            ),
            forall|k: int| 0 <= k < r@.len() ==> (#[trigger] r@[k]).coords.wf(),
    {
        let coords = self.coords.region_coords_nested(topo);
        let ghost c = self.coords.coords(*topo);
        proof {
            assert forall|i: int, j: int| 0 <= i < c.len() && 0 <= j < c[i].len() implies (
            #[trigger] c[i][j]).wf() by {
                assert(c[i][j] == coords@[i]@[j]);
            }
            lemma_diff_wf(c, self.aggregates(), other.aggregates());
        }
        let ghost a = self.aggregates();
        let ghost b = other.aggregates();
        let mut out: Vec<Region> = Vec::new();
        let mut i: usize = 0;
        while i < coords.len()
            invariant
                i <= coords@.len(),
                c == rows(coords@),
                a == rows(self.data@),
                b == rows(other.data@),
                same_shape(c, a),
                same_shape(c, b),
                out@ == diff_rows(c, a, b, i as int),
            decreases coords@.len() - i,
        {
            let row = &coords[i];
            let mine = &self.data[i];
            let theirs = &other.data[i];
            let ghost before = out@;
            let mut j: usize = 0;
            proof {
                assert(c[i as int].len() == a[i as int].len());
                assert(c[i as int].len() == b[i as int].len());
            }
            while j < row.len()
                invariant
                    j <= row@.len(),
                    i < coords@.len(),
                    row@ == c[i as int],
                    mine@ == a[i as int],
                    theirs@ == b[i as int],
                    row@.len() == mine@.len(),
                    row@.len() == theirs@.len(),
                    out@ == before + diff_row(row@, mine@, theirs@, j as int),
                decreases row@.len() - j,
            {
                let ghost sofar = diff_row(row@, mine@, theirs@, j as int);
                if !mine[j].same_as(&theirs[j]) {
                    out.push(Region { coords: row[j], data: mine[j] });
                    proof {
                        assert(out@ =~= before + (sofar + seq![
                            Region { coords: row@[j as int], data: mine@[j as int] },
                        ]));
                    }
                } else {
                    proof {
                        assert(out@ =~= before + (sofar + Seq::<Region>::empty()));
                    }
                }
                j = j + 1;
            }
            i = i + 1;
        }
        out
    }
}

/// Moving on to further rows does not lower the number of entries.
pub proof fn lemma_total_len_grows<T>(r: Seq<Seq<T>>, m: int, n: int)
    requires
        m <= n,
    ensures
        total_len(r, m) <= total_len(r, n),
    decreases n - m,
{
    if m < n {
        lemma_total_len_grows(r, m, n - 1);
    }
}

/// A digest, in one of the forms in which peers exchange it.
#[derive(Debug)]
pub enum RegionSet {
    /// Space segments of one power, crossed with time segments that grow
    /// wider towards the past.
    Xtcs(RegionSetXtcs),
}

impl RegionSet {
    /// The digest itself.
    pub open spec fn xtcs(&self) -> RegionSetXtcs {
        match self {
            RegionSet::Xtcs(set) => *set,
        }
    }

    /// A copy of the digest.
    pub fn duplicate(&self) -> (r: RegionSet)
        ensures
            r.xtcs().coords.max_micros() == self.xtcs().coords.max_micros(),
            r.xtcs().coords.spans() == self.xtcs().coords.spans(),
            r.xtcs().coords.power() == self.xtcs().coords.power(),
            r.xtcs().aggregates() == self.xtcs().aggregates(),
    {
        match self {
            RegionSet::Xtcs(set) => RegionSet::Xtcs(set.duplicate()),
        }
    }

    /// Whether the digest has an aggregate for each region of its tiling
    /// under `topo`, and speaks of the same regions as `other`.
    pub fn comparable(&self, other: &RegionSet, topo: &Topology) -> (r: bool)
        requires
            topo.wf(),
        ensures
            r == (self.xtcs().fits(*topo) && other.xtcs().fits(*topo)
                && self.xtcs().coords.max_micros() == other.xtcs().coords.max_micros()
                && self.xtcs().coords.spans() == other.xtcs().coords.spans()
                && self.xtcs().coords.power() == other.xtcs().coords.power()),
            r ==> self.xtcs().coords.coords(*topo) == other.xtcs().coords.coords(*topo),
    {
        match (self, other) {
            (RegionSet::Xtcs(mine), RegionSet::Xtcs(theirs)) => mine.is_fit(topo) && theirs.is_fit(
                topo,
            ) && mine.coords.same_as(&theirs.coords),
        }
    }

    /// Whether the digest speaks of the regions `coords`.
    pub fn covers(&self, coords: &RegionCoordSetXtcs) -> (r: bool)
        ensures
            r == (self.xtcs().coords.max_micros() == coords.max_micros()
                && self.xtcs().coords.spans() == coords.spans() && self.xtcs().coords.power()
                == coords.power()),
    {
        match self {
            RegionSet::Xtcs(set) => set.coords.same_as(coords),
        }
    }

    /// Whether the digest has an aggregate for each region of its tiling under `topo`.
    pub fn is_fit(&self, topo: &Topology) -> (r: bool)
        requires
            topo.wf(),
        ensures
            r == self.xtcs().fits(*topo),
    {
        match self {
            RegionSet::Xtcs(set) => set.is_fit(topo),
        }
    }

    /// What the digest costs to send, in bytes, where that fits 32 bits.
    pub fn mass(&self) -> (r: Option<u32>)
        ensures
            match r {
                Some(m) => m == self.xtcs().total() * REGION_MASS,
                None => self.xtcs().total() * REGION_MASS > u32::MAX,
            },
    {
        match self {
            RegionSet::Xtcs(set) => set.mass(),
        }
    }

    /// Number of regions in the digest.
    pub fn count(&self) -> (n: usize)
        requires
            self.xtcs().total() <= usize::MAX,
        ensures
            n == self.xtcs().total(),
    {
        match self {
            RegionSet::Xtcs(set) => set.count(),
        }
    }

    /// The regions for which this digest and `other` disagree, each with
    /// the aggregate of this digest, in the order of the tiling.
    pub fn diff(&self, other: &RegionSet, topo: &Topology) -> (r: Vec<Region>)
        requires
            topo.wf(),
            self.xtcs().fits(*topo),
            other.xtcs().fits(*topo),
            self.xtcs().coords.coords(*topo) == other.xtcs().coords.coords(*topo),
        ensures
            r@ == diff_regions(
                self.xtcs().coords.coords(*topo),
                self.xtcs().aggregates(),
                other.xtcs().aggregates(),
            ),
            forall|k: int| 0 <= k < r@.len() ==> (#[trigger] r@[k]).coords.wf(),
    {
        match (self, other) {
            (RegionSet::Xtcs(mine), RegionSet::Xtcs(theirs)) => mine.diff(theirs, topo),
        }
    }
}

} // verus!
