//! Counting and summing the points of a rectangle of the grid.

use vstd::prelude::*;

verus! {

/// A weighted point of the (space, time) grid.
#[derive(Clone, Copy, Debug, PartialEq, Eq, Structural)]
pub struct GridPoint {
    /// Space coordinate.
    pub x: u32,
    /// Time coordinate.
    pub t: u32,
    /// Weight of the point, in bytes.
    pub size: u32,
}

impl GridPoint {
    /// Whether the point lies in the closed rectangle `[x0, x1] x [t0, t1]`.
    pub open spec fn within(self, x0: int, x1: int, t0: int, t1: int) -> bool {
        x0 <= self.x <= x1 && t0 <= self.t <= t1
    }
}

/// Number of points of `s` in the closed rectangle `[x0, x1] x [t0, t1]`.
pub open spec fn count_in(s: Seq<GridPoint>, x0: int, x1: int, t0: int, t1: int) -> nat
    decreases s.len(),
{
    if s.len() == 0 {
        0
    } else {
        count_in(s.drop_last(), x0, x1, t0, t1) + if s.last().within(x0, x1, t0, t1) {
            1nat
        } else {
            0nat
        }
    }
}

/// Total weight of the points of `s` in the closed rectangle `[x0, x1] x [t0, t1]`.
pub open spec fn size_in(s: Seq<GridPoint>, x0: int, x1: int, t0: int, t1: int) -> nat
    decreases s.len(),
{
    if s.len() == 0 {
        0
    } else {
        size_in(s.drop_last(), x0, x1, t0, t1) + if s.last().within(x0, x1, t0, t1) {
            s.last().size as nat
        } else {
            0nat
        }
    }
}

/// Appending a point raises the aggregates of exactly the rectangles that hold it.
pub proof fn lemma_in_push(s: Seq<GridPoint>, p: GridPoint, x0: int, x1: int, t0: int, t1: int)
    ensures
        count_in(s.push(p), x0, x1, t0, t1) == count_in(s, x0, x1, t0, t1) + if p.within(
            x0,
            x1,
            t0,
            t1,
        ) {
            1nat
        } else {
            0nat
        },
        size_in(s.push(p), x0, x1, t0, t1) == size_in(s, x0, x1, t0, t1) + if p.within(
            x0,
            x1,
            t0,
            t1,
        ) {
            p.size as nat
        } else {
            0nat
        },
{
    assert(s.push(p).drop_last() =~= s);
}

/// The count of a rectangle is the number of the points that lie in it.
pub proof fn lemma_count_is_number_within(s: Seq<GridPoint>, x0: int, x1: int, t0: int, t1: int)
    ensures
        count_in(s, x0, x1, t0, t1) == s.filter(|p: GridPoint| p.within(x0, x1, t0, t1)).len(),
    decreases s.len(),
{
    let inside = |p: GridPoint| p.within(x0, x1, t0, t1);
    if s.len() == 0 {
        s.lemma_filter_len(inside);
    } else {
        let front = s.drop_last();
        assert(s =~= front.push(s.last()));
        lemma_count_is_number_within(front, x0, x1, t0, t1);
        front.lemma_filter_push(s.last(), inside);
    }
}

/// The aggregates of two collections of points add up.
pub proof fn lemma_in_concat(
    s: Seq<GridPoint>,
    t: Seq<GridPoint>,
    x0: int,
    x1: int,
    t0: int,
    t1: int,
)
    ensures
        count_in(s + t, x0, x1, t0, t1) == count_in(s, x0, x1, t0, t1) + count_in(
            t,
            x0,
            x1,
            t0,
            t1,
        ),
        size_in(s + t, x0, x1, t0, t1) == size_in(s, x0, x1, t0, t1) + size_in(t, x0, x1, t0, t1),
    decreases t.len(),
{
    if t.len() == 0 {
        assert(s + t =~= s);
    } else {
        assert((s + t).drop_last() =~= s + t.drop_last());
        assert((s + t).last() == t.last());
        lemma_in_concat(s, t.drop_last(), x0, x1, t0, t1);
    }
}

/// A rectangle holds at most all points, and each weighs less than `2^32`.
pub proof fn lemma_in_bounds(s: Seq<GridPoint>, x0: int, x1: int, t0: int, t1: int)
    ensures
        count_in(s, x0, x1, t0, t1) <= s.len(),
        size_in(s, x0, x1, t0, t1) <= s.len() * 0xFFFF_FFFF,
    decreases s.len(),
{
    if s.len() > 0 {
        lemma_in_bounds(s.drop_last(), x0, x1, t0, t1);
    }
}

/// The whole grid holds every point.
pub proof fn lemma_in_all(s: Seq<GridPoint>)
    ensures
        count_in(s, 0, u32::MAX as int, 0, u32::MAX as int) == s.len(),
    decreases s.len(),
{
    if s.len() > 0 {
        lemma_in_all(s.drop_last());
    }
}

/// A rectangle with a reversed side holds nothing.
pub proof fn lemma_in_empty(s: Seq<GridPoint>, x0: int, x1: int, t0: int, t1: int)
    requires
        x0 > x1 || t0 > t1,
    ensures
        count_in(s, x0, x1, t0, t1) == 0,
        size_in(s, x0, x1, t0, t1) == 0,
    decreases s.len(),
{
    if s.len() > 0 {
        lemma_in_empty(s.drop_last(), x0, x1, t0, t1);
    }
}

/// A rectangle that none of the points lies in has zero aggregates.
pub proof fn lemma_in_none(s: Seq<GridPoint>, x0: int, x1: int, t0: int, t1: int)
    requires
        forall|i: int| 0 <= i < s.len() ==> !(#[trigger] s[i]).within(x0, x1, t0, t1),
    ensures
        count_in(s, x0, x1, t0, t1) == 0,
        size_in(s, x0, x1, t0, t1) == 0,
    decreases s.len(),
{
    if s.len() > 0 {
        let r = s.drop_last();
        assert forall|i: int| 0 <= i < r.len() implies !(#[trigger] r[i]).within(
            x0,
            x1,
            t0,
            t1,
        ) by {
            assert(r[i] == s[i]);
        }
        lemma_in_none(r, x0, x1, t0, t1);
        assert(s.last() == s[s.len() - 1]);
    }
}

/// Cutting a rectangle across the space axis splits its aggregates.
pub proof fn lemma_in_split_x(s: Seq<GridPoint>, x0: int, m: int, x1: int, t0: int, t1: int)
    requires
        x0 - 1 <= m <= x1,
    ensures
        count_in(s, x0, x1, t0, t1) == count_in(s, x0, m, t0, t1) + count_in(
            s,
            m + 1,
            x1,
            t0,
            t1,
        ),
        size_in(s, x0, x1, t0, t1) == size_in(s, x0, m, t0, t1) + size_in(s, m + 1, x1, t0, t1),
    decreases s.len(),
{
    if s.len() > 0 {
        lemma_in_split_x(s.drop_last(), x0, m, x1, t0, t1);
    }
}

/// Cutting a rectangle across the time axis splits its aggregates.
pub proof fn lemma_in_split_t(s: Seq<GridPoint>, x0: int, x1: int, t0: int, m: int, t1: int)
    requires
        t0 - 1 <= m <= t1,
    ensures
        count_in(s, x0, x1, t0, t1) == count_in(s, x0, x1, t0, m) + count_in(
            s,
            x0,
            x1,
            m + 1,
            t1,
        ),
        size_in(s, x0, x1, t0, t1) == size_in(s, x0, x1, t0, m) + size_in(s, x0, x1, m + 1, t1),
    decreases s.len(),
{
    if s.len() > 0 {
        lemma_in_split_t(s.drop_last(), x0, x1, t0, m, t1);
    }
}

} // verus!
