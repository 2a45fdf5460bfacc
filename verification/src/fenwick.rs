//! A sparse binary indexed tree over the two axes of the grid.
//!
//! Cell `(i, j)`, with `1 <= i, j <= 2^32`, holds the aggregate of the block
//! of `lowbit(i)` space coordinates that ends at `i - 1` and of `lowbit(j)`
//! time coordinates that ends at `j - 1`. A prefix is a disjoint union of
//! such blocks, found by stripping the lowest set bit; the cells that hold a
//! given point are found by adding it. Cells that hold nothing are absent.

use vstd::prelude::*;
use std::collections::HashMap;
use crate::aggregate::{GridPoint, count_in, size_in, lemma_in_push, lemma_in_bounds, lemma_in_split_x, lemma_in_split_t, lemma_in_empty};
use crate::region::RegionData;

verus! {

broadcast use vstd::std_specs::hash::group_hash_axioms;

/// Number of coordinates on each axis.
pub const GRID_SIZE: u64 = 0x1_0000_0000;

/// The lowest set bit of `i`.
spec fn lowbit(i: u64) -> u64 {
    i & !((i - 1) as u64)
}

spec fn valid_index(i: u64) -> bool {
    1 <= i <= GRID_SIZE
}

spec fn cell_key(i: u64, j: u64) -> u64 {
    ((i - 1) * GRID_SIZE + (j - 1)) as u64
}

spec fn cell_value(cells: Map<u64, RegionData>, i: u64, j: u64) -> RegionData {
    if cells.contains_key(cell_key(i, j)) {
        cells[cell_key(i, j)]
    } else {
        RegionData { count: 0, size: 0 }
    }
}

/// Cell `(i, j)` holds the aggregate of its block of `points`.
spec fn cell_sums(cells: Map<u64, RegionData>, points: Seq<GridPoint>, i: u64, j: u64) -> bool {
    let v = cell_value(cells, i, j);
    &&& v.count == count_in(points, i - lowbit(i), i - 1, j - lowbit(j), j - 1)
    &&& v.size == size_in(points, i - lowbit(i), i - 1, j - lowbit(j), j - 1)
}

proof fn lemma_lowbit_range(i: u64)
    by (bit_vector)
    requires
        1 <= i <= 0x1_0000_0000,
    ensures
        1 <= lowbit(i) <= i,
{
}

/// The next index up the chain covers every coordinate that index `i` covers.
proof fn lemma_chain_up(i: u64, x: u64)
    by (bit_vector)
    requires
        1 <= i <= 0x1_0000_0000,
        i - lowbit(i) <= x < i,
    ensures
        (i + lowbit(i)) as u64 - lowbit((i + lowbit(i)) as u64) <= x,
{
}

/// No index strictly between two neighbours of the chain covers the coordinate.
proof fn lemma_chain_skip(i: u64, j: u64, x: u64)
    by (bit_vector)
    requires
        1 <= i <= 0x1_0000_0000,
        i < j < i + lowbit(i),
        i - lowbit(i) <= x < i,
    ensures
        j - lowbit(j) > x,
{
}

proof fn lemma_key_injective(a: u64, b: u64, i: u64, j: u64)
    requires
        valid_index(a),
        valid_index(b),
        valid_index(i),
        valid_index(j),
        a != i || b != j,
    ensures
        cell_key(a, b) != cell_key(i, j),
{
}

fn low_bit(i: u64) -> (r: u64)
    requires
        1 <= i <= GRID_SIZE,
    ensures
        r == lowbit(i),
        1 <= r <= i,
{
    proof {
        lemma_lowbit_range(i);
    }
    i & !(i - 1)
}

/// The aggregates of all prefixes of a growing collection of grid points.
pub struct Fenwick2 {
    cells: HashMap<u64, RegionData>,
    points: Ghost<Seq<GridPoint>>,
}

impl View for Fenwick2 {
    type V = Seq<GridPoint>;

    /// The points added so far, in the order of their arrival.
    closed spec fn view(&self) -> Seq<GridPoint> {
        self.points@
    }
}

impl Fenwick2 {
    /// Every cell holds the aggregate of its block, and the count fits its field.
    pub closed spec fn wf(&self) -> bool {
        &&& self.points@.len() <= u32::MAX
        &&& forall|i: u64, j: u64|
            valid_index(i) && valid_index(j) ==> #[trigger] cell_sums(
                self.cells@,
                self.points@,
                i,
                j,
            )
    }

    /// Every index that holds points holds fewer than `2^32` of them.
    pub proof fn lemma_len_bounded(&self)
        requires
            self.wf(),
        ensures
            self@.len() <= u32::MAX,
    {
    }

    /// An index with no points.
    pub fn new() -> (r: Fenwick2)
        ensures
            r.wf(),
            r@ == Seq::<GridPoint>::empty(),
    {
        let r = Fenwick2 { cells: HashMap::new(), points: Ghost(Seq::empty()) };
        assert(r.cells@ =~= Map::<u64, RegionData>::empty());
        r
    }

    fn cell(&self, i: u64, j: u64) -> (v: RegionData)
        requires
            valid_index(i),
            valid_index(j),
        ensures
            v == cell_value(self.cells@, i, j),
    {
        let key: u64 = (i - 1) * GRID_SIZE + (j - 1);
        match self.cells.get(&key) {
            Some(v) => *v,
            None => RegionData { count: 0, size: 0 },
        }
    }

    /// Aggregate of the points with space coordinate at most `point.0` and
    /// time coordinate at most `point.1`.
    pub fn prefix_sum(&self, point: (u32, u32)) -> (r: RegionData)
        requires
            self.wf(),
        ensures
            r.count == count_in(self@, 0, point.0 as int, 0, point.1 as int),
            r.size == size_in(self@, 0, point.0 as int, 0, point.1 as int),
    {
        let x: u32 = point.0;
        let t: u32 = point.1;
        let ghost pts = self.points@;
        let mut acc = RegionData { count: 0, size: 0 };
        let mut i: u64 = x as u64 + 1;
        proof {
            lemma_in_empty(pts, x + 1, x as int, 0, t as int);
        }
        while i > 0
            invariant
                self.wf(),
                pts == self.points@,
                i <= x + 1,
                acc.count == count_in(pts, i as int, x as int, 0, t as int),
                acc.size == size_in(pts, i as int, x as int, 0, t as int),
            decreases i,
        {
            let lb: u64 = low_bit(i);
            let mut row = RegionData { count: 0, size: 0 };
            let mut j: u64 = t as u64 + 1;
            proof {
                lemma_in_empty(pts, i - lb, i - 1, t + 1, t as int);
            }
            while j > 0
                invariant
                    self.wf(),
                    pts == self.points@,
                    valid_index(i),
                    lb == lowbit(i),
                    1 <= lb <= i,
                    j <= t + 1,
                    row.count == count_in(pts, i - lb, i - 1, j as int, t as int),
                    row.size == size_in(pts, i - lb, i - 1, j as int, t as int),
                decreases j,
            {
                let lj: u64 = low_bit(j);
                let c = self.cell(i, j);
                proof {
                    assert(cell_sums(self.cells@, pts, i, j));
                    lemma_in_split_t(pts, i - lb, i - 1, j - lj, j - 1, t as int);
                    lemma_in_bounds(pts, i - lb, i - 1, j - lj, t as int);
                }
                row = RegionData { count: row.count + c.count, size: row.size + c.size };
                j = j - lj;
            }
            proof {
                lemma_in_split_x(pts, i - lb, i - 1, x as int, 0, t as int);
                lemma_in_bounds(pts, i - lb, x as int, 0, t as int);
            }
            acc = RegionData { count: acc.count + row.count, size: acc.size + row.size };
            i = i - lb;
        }
        acc
    }

    /// Aggregate of the points in the closed rectangle from `min` to `max`.
    pub fn query(&self, min: (u32, u32), max: (u32, u32)) -> (r: RegionData)
        requires
            self.wf(),
        ensures
            r.count == count_in(self@, min.0 as int, max.0 as int, min.1 as int, max.1 as int),
            r.size == size_in(self@, min.0 as int, max.0 as int, min.1 as int, max.1 as int),
    {
        let ghost pts = self.points@;
        if min.0 > max.0 || min.1 > max.1 {
            proof {
                lemma_in_empty(pts, min.0 as int, max.0 as int, min.1 as int, max.1 as int);
            }
            return RegionData { count: 0, size: 0 };
        }
        let ne = self.prefix_sum(max);
        let nw = if min.0 > 0 {
            self.prefix_sum((min.0 - 1, max.1))
        } else {
            proof {
                lemma_in_empty(pts, 0, -1, 0, max.1 as int);
            }
            RegionData { count: 0, size: 0 }
        };
        let se = if min.1 > 0 {
            self.prefix_sum((max.0, min.1 - 1))
        } else {
            proof {
                lemma_in_empty(pts, 0, max.0 as int, 0, -1);
            }
            RegionData { count: 0, size: 0 }
        };
        let sw = if min.0 > 0 && min.1 > 0 {
            self.prefix_sum((min.0 - 1, min.1 - 1))
        } else {
            proof {
                lemma_in_empty(pts, 0, min.0 - 1, 0, min.1 - 1);
            }
            RegionData { count: 0, size: 0 }
        };
        proof {
            // columns right of the western strip, over the full and the southern height
            lemma_in_split_x(pts, 0, min.0 - 1, max.0 as int, 0, max.1 as int);
            lemma_in_split_x(pts, 0, min.0 - 1, max.0 as int, 0, min.1 - 1);
            // of those, the rows above the southern strip
            lemma_in_split_t(pts, min.0 as int, max.0 as int, 0, min.1 - 1, max.1 as int);
        }
        let upper = RegionData { count: ne.count - nw.count, size: ne.size - nw.size };
        let lower = RegionData { count: se.count - sw.count, size: se.size - sw.size };
        RegionData { count: upper.count - lower.count, size: upper.size - lower.size }
    }

    /// Adds one point.
    pub fn update(&mut self, p: GridPoint)
        requires
            old(self).wf(),
            old(self)@.len() < u32::MAX,
        ensures
            final(self).wf(),
            final(self)@ == old(self)@.push(p),
    {
        let ghost before = self.points@;
        let ghost after = before.push(p);
        let x: u64 = p.x as u64;
        let t: u64 = p.t as u64;
        let mut i: u64 = x + 1;
        proof {
            assert forall|a: u64, b: u64|
                valid_index(a) && valid_index(b) && a < i implies #[trigger] cell_sums(
                self.cells@,
                after,
                a,
                b,
            ) by {
                assert(cell_sums(self.cells@, before, a, b));
                lemma_lowbit_range(a);
                lemma_in_push(before, p, a - lowbit(a), a - 1, b - lowbit(b), b - 1);
            }
            lemma_lowbit_range(i);
        }
        while i <= GRID_SIZE
            invariant
                before == old(self).points@,
                self.points@ == before,
                after == before.push(p),
                before.len() < u32::MAX,
                x == p.x,
                t == p.t,
                1 <= i <= 2 * GRID_SIZE,
                i <= GRID_SIZE ==> i - lowbit(i) <= x < i,
                forall|a: u64, b: u64|
                    valid_index(a) && valid_index(b) && a < i ==> #[trigger] cell_sums(
                        self.cells@,
                        after,
                        a,
                        b,
                    ),
                forall|a: u64, b: u64|
                    valid_index(a) && valid_index(b) && a >= i ==> #[trigger] cell_sums(
                        self.cells@,
                        before,
                        a,
                        b,
                    ),
            decreases 2 * GRID_SIZE - i,
        {
            let li: u64 = low_bit(i);
            let mut j: u64 = t + 1;
            proof {
                assert forall|a: u64, b: u64|
                    valid_index(a) && valid_index(b) && a == i && b < j implies #[trigger] cell_sums(
                    self.cells@,
                    after,
                    a,
                    b,
                ) by {
                    assert(cell_sums(self.cells@, before, a, b));
                    lemma_lowbit_range(b);
                    lemma_in_push(before, p, a - lowbit(a), a - 1, b - lowbit(b), b - 1);
                }
                lemma_lowbit_range(j);
            }
            while j <= GRID_SIZE
                invariant
                    self.points@ == before,
                    after == before.push(p),
                    before.len() < u32::MAX,
                    x == p.x,
                    t == p.t,
                    valid_index(i),
                    li == lowbit(i),
                    1 <= li <= i,
                    i - lowbit(i) <= x < i,
                    1 <= j <= 2 * GRID_SIZE,
                    j <= GRID_SIZE ==> j - lowbit(j) <= t < j,
                    forall|a: u64, b: u64|
                        valid_index(a) && valid_index(b) && (a < i || (a == i && b < j))
                            ==> #[trigger] cell_sums(self.cells@, after, a, b),
                    forall|a: u64, b: u64|
                        valid_index(a) && valid_index(b) && (a > i || (a == i && b >= j))
                            ==> #[trigger] cell_sums(self.cells@, before, a, b),
                decreases 2 * GRID_SIZE - j,
            {
                let lj: u64 = low_bit(j);
                let cur = self.cell(i, j);
                let ghost cells_before = self.cells@;
                proof {
                    assert(cell_sums(cells_before, before, i, j));
                    lemma_in_bounds(before, i - li, i - 1, j - lj, j - 1);
                    lemma_in_push(before, p, i - li, i - 1, j - lj, j - 1);
                }
                let key: u64 = (i - 1) * GRID_SIZE + (j - 1);
                let next = RegionData { count: cur.count + 1, size: cur.size + p.size as u64 };
                self.cells.insert(key, next);
                let ghost nj = (j + lj) as u64;
                proof {
                    assert(self.cells@ == cells_before.insert(key, next));
                    assert forall|a: u64, b: u64|
                        valid_index(a) && valid_index(b) && (a < i || (a == i && b < nj))
                        implies #[trigger] cell_sums(self.cells@, after, a, b) by {
                        if a == i && b == j {
                            assert(cell_value(self.cells@, a, b) == next);
                        } else {
                            lemma_key_injective(a, b, i, j);
                            assert(cell_value(self.cells@, a, b) == cell_value(cells_before, a, b));
                            if a < i || (a == i && b < j) {
                                assert(cell_sums(cells_before, after, a, b));
                            } else {
                                assert(cell_sums(cells_before, before, a, b));
                                lemma_chain_skip(j, b, t);
                                lemma_lowbit_range(a);
                                lemma_in_push(
                                    before,
                                    p,
                                    a - lowbit(a),
                                    a - 1,
                                    b - lowbit(b),
                                    b - 1,
                                );
                            }
                        }
                    }
                    assert forall|a: u64, b: u64|
                        valid_index(a) && valid_index(b) && (a > i || (a == i && b >= nj))
                        implies #[trigger] cell_sums(self.cells@, before, a, b) by {
                        lemma_key_injective(a, b, i, j);
                        assert(cell_value(self.cells@, a, b) == cell_value(cells_before, a, b));
                        assert(cell_sums(cells_before, before, a, b));
                    }
                    if nj <= GRID_SIZE {
                        lemma_chain_up(j, t);
                    }
                }
                j = j + lj;
            }
            let ghost ni = (i + li) as u64;
            proof {
                assert forall|a: u64, b: u64|
                    valid_index(a) && valid_index(b) && a < ni implies #[trigger] cell_sums(
                    self.cells@,
                    after,
                    a,
                    b,
                ) by {
                    if a <= i {
                        assert(cell_sums(self.cells@, after, a, b));
                    } else {
                        assert(cell_sums(self.cells@, before, a, b));
                        lemma_chain_skip(i, a, x);
                        lemma_lowbit_range(b);
                        lemma_in_push(before, p, a - lowbit(a), a - 1, b - lowbit(b), b - 1);
                    }
                }
                if ni <= GRID_SIZE {
                    lemma_chain_up(i, x);
                }
            }
            i = i + li;
        }
        self.points = Ghost(after);
    }
}

} // verus!
