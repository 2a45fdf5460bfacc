//! Arcs of the ring: what a peer declares that it stores.

use vstd::prelude::*;
use vstd::arithmetic::power2::{pow2, lemma2_to64};
use crate::coords::RING_SIZE;
use crate::segment::{pow2_u64, lemma_pow2_monotone};

verus! {

/// A stretch of the ring that does not pass its end: the coordinates from
/// `first` to `last`, both included.
#[derive(Clone, Copy, Debug, PartialEq, Eq, Structural)]
pub struct Span {
    /// First coordinate.
    pub first: u32,
    /// Last coordinate.
    pub last: u32,
}

impl Span {
    /// Whether the coordinate lies in the stretch.
    pub open spec fn contains(self, x: int) -> bool {
        self.first <= x <= self.last
    }
}

/// The stretches are not empty, ascend, and leave a gap between neighbours:
/// the one shortest way to write down the coordinates that they hold.
pub open spec fn spans_normal(s: Seq<Span>) -> bool {
    &&& forall|i: int| 0 <= i < s.len() ==> (#[trigger] s[i]).first <= s[i].last
    &&& forall|i: int| 0 < i < s.len() ==> s[i - 1].last + 1 < (#[trigger] s[i]).first
}

/// Whether one of the stretches from index `from` on holds the coordinate.
pub open spec fn spans_contain_from(s: Seq<Span>, from: int, x: int) -> bool {
    exists|i: int| from <= i < s.len() && 0 <= i && (#[trigger] s[i]).contains(x)
}

/// Whether one of the stretches holds the coordinate.
pub open spec fn spans_contain(s: Seq<Span>, x: int) -> bool {
    spans_contain_from(s, 0, x)
}

/// In a normal sequence, later stretches lie beyond earlier ones.
pub proof fn lemma_spans_ascend(s: Seq<Span>, i: int, j: int)
    requires
        spans_normal(s),
        0 <= i < j < s.len(),
    ensures
        s[i].last + 1 < s[j].first,
    decreases j - i,
{
    if i + 1 < j {
        lemma_spans_ascend(s, i, j - 1);
        assert(s[j - 1].last + 1 < s[j].first);
        assert(s[j - 1].first <= s[j - 1].last);
    } else {
        assert(s[j - 1].last + 1 < s[j].first);
    }
}

/// How far `x` lies from `start`, going up the ring and around its end.
pub open spec fn ring_offset(start: int, x: int) -> int {
    if x >= start {
        x - start
    } else {
        x - start + RING_SIZE
    }
}

/// The stretches of the arc of `len` coordinates that begins at `start`:
/// none where it is empty, two where it passes the end of the ring, else one.
pub open spec fn arc_spans(start: int, len: int) -> Seq<Span> {
    if len <= 0 {
        Seq::empty()
    } else if len >= RING_SIZE {
        seq![Span { first: 0, last: u32::MAX }]
    } else if start + len <= RING_SIZE {
        seq![Span { first: start as u32, last: (start + len - 1) as u32 }]
    } else {
        seq![
            Span { first: 0, last: (start + len - RING_SIZE - 1) as u32 },
            Span { first: start as u32, last: u32::MAX },
        ]
    }
}

/// The stretches of an arc are normal and hold the coordinates that lie
/// fewer than `len` steps up the ring from `start`.
pub proof fn lemma_arc_spans(start: int, len: int)
    requires
        0 <= start < RING_SIZE,
        0 <= len <= RING_SIZE,
    ensures
        spans_normal(arc_spans(start, len)),
        forall|x: int|
            0 <= x < RING_SIZE ==> (spans_contain(arc_spans(start, len), x) <==> ring_offset(
                start,
                x,
            ) < len),
{
    let s = arc_spans(start, len);
    assert forall|x: int| 0 <= x < RING_SIZE implies (spans_contain(s, x) <==> ring_offset(start, x)
        < len) by {
        if ring_offset(start, x) < len {
            if len >= RING_SIZE {
                assert(s[0].contains(x));
            } else if start + len <= RING_SIZE {
                assert(s[0].contains(x));
            } else if x >= start {
                assert(s[1].contains(x));
            } else {
                assert(s[0].contains(x));
            }
        }
    }
}

/// The stretches of an arc hold coordinates of the ring only.
pub proof fn lemma_arc_spans_in_ring(start: int, len: int)
    requires
        0 <= start < RING_SIZE,
        0 <= len <= RING_SIZE,
    ensures
        forall|x: int| spans_contain(arc_spans(start, len), x) ==> 0 <= x < RING_SIZE,
{
}

/// The length of the arc of `count` segments of power `power`, which is at
/// most the whole ring.
pub open spec fn arc_len(power: u8, count: u32) -> int {
    if count == 0 {
        0
    } else if power >= 32 || count * pow2(power as nat) >= RING_SIZE {
        RING_SIZE as int
    } else {
        count * pow2(power as nat)
    }
}

/// An arc is at most as long as the ring.
pub proof fn lemma_arc_len_range(power: u8, count: u32)
    ensures
        0 <= arc_len(power, count) <= RING_SIZE,
{
    vstd::arithmetic::power2::lemma_pow2_pos(power as nat);
    let w = pow2(power as nat) as int;
    assert(0 <= count * w) by (nonlinear_arith)
        requires
            0 <= count,
            0 < w,
    ;
}

/// An arc of the ring: `count` segments of `2^power` coordinates from
/// `start` on, going around the end of the ring where they pass it.
#[derive(Clone, Copy, Debug, PartialEq, Eq, Structural)]
pub struct Arq {
    /// First coordinate of the arc.
    pub start: u32,
    /// Binary logarithm of the width of a segment.
    pub power: u8,
    /// Number of segments.
    pub count: u32,
}

impl Arq {
    /// Whether the arc holds the coordinate.
    pub open spec fn contains(self, x: int) -> bool {
        0 <= x < RING_SIZE && ring_offset(self.start as int, x) < arc_len(self.power, self.count)
    }

    /// The arc of `count` segments of power `power` that begins at `start`.
    pub fn new(start: u32, power: u8, count: u32) -> (r: Arq)
        ensures
            r.start == start,
            r.power == power,
            r.count == count,
    {
        Arq { start, power, count }
    }

    /// Where the arc begins and how many coordinates it holds.
    pub fn to_bounds(&self) -> (b: ArqBounds)
        ensures
            b.wf(),
            b.start() == self.start,
            b.power() == self.power,
            b.len() == arc_len(self.power, self.count),
    {
        let len: u64 = if self.count == 0 {
            0
        } else if self.power >= 32 {
            RING_SIZE
        } else {
            let w = pow2_u64(self.power);
            proof {
                lemma2_to64();
                lemma_pow2_monotone(self.power as nat, 31);
                assert(self.count * w <= 0xFFFF_FFFF * 0x8000_0000) by (nonlinear_arith)
                    requires
                        self.count <= 0xFFFF_FFFF,
                        0 <= w <= 0x8000_0000,
                ;
            }
            let l: u64 = (self.count as u64) * w;
            if l >= RING_SIZE {
                RING_SIZE
            } else {
                l
            }
        };
        ArqBounds { start: self.start, len, power: self.power }
    }
}

/// An arc given by its first coordinate and its length.
#[derive(Clone, Copy, Debug)]
pub struct ArqBounds {
    start: u32,
    len: u64,
    power: u8,
}

impl ArqBounds {
    /// First coordinate of the arc.
    pub closed spec fn start(self) -> int {
        self.start as int
    }

    /// Number of coordinates of the arc.
    pub closed spec fn len(self) -> int {
        self.len as int
    }

    /// Binary logarithm of the width of the segments that the arc was made of.
    pub closed spec fn power(self) -> int {
        self.power as int
    }

    /// The arc is no longer than the ring.
    pub closed spec fn wf(self) -> bool {
        self.len <= RING_SIZE
    }

    /// Whether the arc holds the coordinate.
    pub open spec fn contains(self, x: int) -> bool {
        0 <= x < RING_SIZE && ring_offset(self.start(), x) < self.len()
    }

    /// The stretches that make up the arc.
    pub open spec fn spans(self) -> Seq<Span> {
        arc_spans(self.start(), self.len())
    }

    /// First coordinate of the arc.
    pub fn first(&self) -> (r: u32)
        ensures
            r == self.start(),
    {
        self.start
    }

    /// Number of coordinates of the arc.
    pub fn length(&self) -> (r: u64)
        ensures
            r == self.len(),
    {
        self.len
    }

    /// The stretches that make up the arc: none where it is empty, two
    /// where it passes the end of the ring, else one.
    pub fn to_spans(&self) -> (r: Vec<Span>)
        requires
            self.wf(),
        ensures
            r@ == self.spans(),
    {
        let mut out: Vec<Span> = Vec::new();
        let start: u64 = self.start as u64;
        if self.len == 0 {
        } else if self.len >= RING_SIZE {
            out.push(Span { first: 0, last: u32::MAX });
        } else if start + self.len <= RING_SIZE {
            out.push(Span { first: self.start, last: (start + self.len - 1) as u32 });
        } else {
            out.push(Span { first: 0, last: (start + self.len - RING_SIZE - 1) as u32 });
            out.push(Span { first: self.start, last: u32::MAX });
        }
        assert(out@ =~= self.spans());
        out
    }
}

/// What two stretches share: one stretch, or none.
pub open spec fn overlap(x: Span, y: Span) -> Seq<Span> {
    let first = if x.first >= y.first {
        x.first
    } else {
        y.first
    };
    let last = if x.last <= y.last {
        x.last
    } else {
        y.last
    };
    if first <= last {
        seq![Span { first, last }]
    } else {
        Seq::empty()
    }
}

/// The stretches that two ascending sequences of stretches share, found by
/// walking both from index `i` and `j` on: the overlap of the two stretches
/// at hand, then the rest without the stretch that ends first.
pub open spec fn intersect_from(a: Seq<Span>, b: Seq<Span>, i: int, j: int) -> Seq<Span>
    decreases a.len() - i + b.len() - j,
{
    if i < 0 || j < 0 || i >= a.len() || j >= b.len() {
        Seq::empty()
    } else if a[i].last < b[j].last {
        overlap(a[i], b[j]) + intersect_from(a, b, i + 1, j)
    } else {
        overlap(a[i], b[j]) + intersect_from(a, b, i, j + 1)
    }
}

/// The stretches that two ascending sequences of stretches share.
pub open spec fn intersect_spans(a: Seq<Span>, b: Seq<Span>) -> Seq<Span> {
    intersect_from(a, b, 0, 0)
}

/// Each stretch of the result lies in a stretch of either argument. Returns their indices.
proof fn lemma_intersect_inside(a: Seq<Span>, b: Seq<Span>, i: int, j: int, k: int) -> (w: (
    int,
    int,
))
    requires
        0 <= i <= a.len(),
        0 <= j <= b.len(),
        0 <= k < intersect_from(a, b, i, j).len(),
    ensures
        i <= w.0 < a.len(),
        j <= w.1 < b.len(),
        a[w.0].first <= intersect_from(a, b, i, j)[k].first,
        b[w.1].first <= intersect_from(a, b, i, j)[k].first,
        intersect_from(a, b, i, j)[k].first <= intersect_from(a, b, i, j)[k].last,
        intersect_from(a, b, i, j)[k].last <= a[w.0].last,
        intersect_from(a, b, i, j)[k].last <= b[w.1].last,
    decreases a.len() - i + b.len() - j,
{
    let head = overlap(a[i], b[j]);
    if k < head.len() {
        (i, j)
    } else if a[i].last < b[j].last {
        let rest = intersect_from(a, b, i + 1, j);
        assert(intersect_from(a, b, i, j)[k] == rest[k - head.len()]);
        lemma_intersect_inside(a, b, i + 1, j, k - head.len())
    } else {
        let rest = intersect_from(a, b, i, j + 1);
        assert(intersect_from(a, b, i, j)[k] == rest[k - head.len()]);
        lemma_intersect_inside(a, b, i, j + 1, k - head.len())
    }
}

/// A coordinate that a stretch of either argument holds lies in a stretch
/// of the result. Returns its index.
proof fn lemma_intersect_holds(
    a: Seq<Span>,
    b: Seq<Span>,
    i: int,
    j: int,
    ka: int,
    kb: int,
    x: int,
) -> (k: int)
    requires
        spans_normal(a),
        spans_normal(b),
        0 <= i <= ka < a.len(),
        0 <= j <= kb < b.len(),
        a[ka].contains(x),
        b[kb].contains(x),
    ensures
        0 <= k < intersect_from(a, b, i, j).len(),
        intersect_from(a, b, i, j)[k].contains(x),
    decreases a.len() - i + b.len() - j,
{
    let head = overlap(a[i], b[j]);
    let r = intersect_from(a, b, i, j);
    if ka > i {
        lemma_spans_ascend(a, i, ka);
    }
    if kb > j {
        lemma_spans_ascend(b, j, kb);
    }
    assert(a[i].first <= a[i].last);
    assert(b[j].first <= b[j].last);
    if ka == i && kb == j {
        assert(r[0] == head[0]);
        0
    } else if a[i].last < b[j].last {
        let rest = intersect_from(a, b, i + 1, j);
        let k = lemma_intersect_holds(a, b, i + 1, j, ka, kb, x);
        assert(r[k + head.len()] == rest[k]);
        k + head.len()
    } else {
        let rest = intersect_from(a, b, i, j + 1);
        let k = lemma_intersect_holds(a, b, i, j + 1, ka, kb, x);
        assert(r[k + head.len()] == rest[k]);
        k + head.len()
    }
}

/// What `intersect_from` yields is normal.
proof fn lemma_intersect_normal(a: Seq<Span>, b: Seq<Span>, i: int, j: int)
    requires
        spans_normal(a),
        spans_normal(b),
        0 <= i <= a.len(),
        0 <= j <= b.len(),
    ensures
        spans_normal(intersect_from(a, b, i, j)),
    decreases a.len() - i + b.len() - j,
{
    let r = intersect_from(a, b, i, j);
    if i < a.len() && j < b.len() {
        let head = overlap(a[i], b[j]);
        let a_first = a[i].last < b[j].last;
        let ni = if a_first {
            i + 1
        } else {
            i
        };
        let nj = if a_first {
            j
        } else {
            j + 1
        };
        let rest = intersect_from(a, b, ni, nj);
        assert(r == head + rest);
        lemma_intersect_normal(a, b, ni, nj);
        assert forall|k: int| 0 <= k < r.len() implies (#[trigger] r[k]).first <= r[k].last by {
            lemma_intersect_inside(a, b, i, j, k);
        }
        assert forall|k: int| 0 < k < r.len() implies r[k - 1].last + 1 < (#[trigger] r[k]).first by {
            assert(r[k] == rest[k - head.len()]);
            if k - 1 < head.len() {
                assert(r[k - 1] == head[k - 1]);
                let w = lemma_intersect_inside(a, b, ni, nj, k - head.len());
                if a_first {
                    if w.0 > i {
                        lemma_spans_ascend(a, i, w.0);
                    }
                } else {
                    if w.1 > j {
                        lemma_spans_ascend(b, j, w.1);
                    }
                }
            } else {
                assert(r[k - 1] == rest[k - 1 - head.len()]);
            }
        }
    }
}

/// The stretches that two normal sequences share are normal and hold the
/// coordinates that both hold.
pub proof fn lemma_intersect_spans(a: Seq<Span>, b: Seq<Span>)
    requires
        spans_normal(a),
        spans_normal(b),
    ensures
        spans_normal(intersect_spans(a, b)),
        forall|x: int|
            spans_contain(intersect_spans(a, b), x) <==> spans_contain(a, x) && spans_contain(
                b,
                x,
            ),
{
    let r = intersect_spans(a, b);
    lemma_intersect_normal(a, b, 0, 0);
    assert forall|x: int| spans_contain(r, x) <==> spans_contain(a, x) && spans_contain(b, x) by {
        if spans_contain(r, x) {
            let k = choose|k: int| 0 <= k < r.len() && 0 <= k && (#[trigger] r[k]).contains(x);
            let w = lemma_intersect_inside(a, b, 0, 0, k);
            assert(a[w.0].contains(x));
            assert(b[w.1].contains(x));
        }
        if spans_contain(a, x) && spans_contain(b, x) {
            let ka = choose|ka: int| 0 <= ka < a.len() && 0 <= ka && (#[trigger] a[ka]).contains(x);
            let kb = choose|kb: int| 0 <= kb < b.len() && 0 <= kb && (#[trigger] b[kb]).contains(x);
            let k = lemma_intersect_holds(a, b, 0, 0, ka, kb, x);
            assert(r[k].contains(x));
        }
    }
}

/// Adds a stretch that begins no earlier than the last of `acc`: it
/// widens that one where it touches it, and follows it where it does not.
pub open spec fn absorb(acc: Seq<Span>, s: Span) -> Seq<Span> {
    if acc.len() > 0 && s.first <= acc.last().last + 1 {
        acc.drop_last().push(
            Span {
                first: acc.last().first,
                last: if s.last > acc.last().last {
                    s.last
                } else {
                    acc.last().last
                },
            },
        )
    } else {
        acc.push(s)
    }
}

/// What `acc` becomes when the stretches of `a` from index `i` on and of
/// `b` from index `j` on are added to it, the earlier one first.
pub open spec fn union_from(acc: Seq<Span>, a: Seq<Span>, b: Seq<Span>, i: int, j: int) -> Seq<
    Span,
>
    decreases a.len() - i + b.len() - j,
{
    if i < 0 || j < 0 || i > a.len() || j > b.len() || (i >= a.len() && j >= b.len()) {
        acc
    } else if j >= b.len() || (i < a.len() && a[i].first <= b[j].first) {
        union_from(absorb(acc, a[i]), a, b, i + 1, j)
    } else {
        union_from(absorb(acc, b[j]), a, b, i, j + 1)
    }
}

/// The stretches that hold what either of two ascending sequences of stretches holds.
pub open spec fn union_spans(a: Seq<Span>, b: Seq<Span>) -> Seq<Span> {
    union_from(Seq::empty(), a, b, 0, 0)
}

/// Whether `acc` can take the stretch `s`: it is normal, and its last
/// stretch begins no later than `s`.
pub open spec fn can_absorb(acc: Seq<Span>, s: Span) -> bool {
    &&& spans_normal(acc)
    &&& s.first <= s.last
    &&& acc.len() > 0 ==> acc.last().first <= s.first
}

/// After taking a stretch, the stretches are normal, the last one begins
/// no later than the stretch taken, and they hold what they held and what
/// the stretch holds.
proof fn lemma_absorb(acc: Seq<Span>, s: Span)
    requires
        can_absorb(acc, s),
    ensures
        spans_normal(absorb(acc, s)),
        absorb(acc, s).len() > 0,
        absorb(acc, s).last().first <= s.first,
        acc.len() > 0 ==> acc.last().first <= absorb(acc, s).last().first,
        forall|x: int| spans_contain(absorb(acc, s), x) <==> spans_contain(acc, x) || s.contains(x),
{
    let r = absorb(acc, s);
    if acc.len() > 0 && s.first <= acc.last().last + 1 {
        let n = acc.len() - 1;
        assert(acc[n].first <= acc[n].last);
        assert forall|i: int| 0 <= i < r.len() implies (#[trigger] r[i]).first <= r[i].last by {
            if i < n {
                assert(r[i] == acc[i]);
            }
        }
        assert forall|i: int| 0 < i < r.len() implies r[i - 1].last + 1 < (#[trigger] r[i]).first by {
            assert(r[i - 1] == acc[i - 1]);
            assert(acc[i - 1].last + 1 < acc[i].first);
        }
        assert forall|x: int| spans_contain(r, x) <==> spans_contain(acc, x) || s.contains(x) by {
            if spans_contain(r, x) {
                let k = choose|k: int| 0 <= k < r.len() && 0 <= k && (#[trigger] r[k]).contains(x);
                if k < n {
                    assert(acc[k].contains(x));
                } else if !s.contains(x) {
                    assert(acc[n].contains(x));
                }
            }
            if spans_contain(acc, x) {
                let k = choose|k: int| 0 <= k < acc.len() && 0 <= k && (#[trigger] acc[k]).contains(x);
                if k < n {
                    assert(r[k] == acc[k]);
                    assert(r[k].contains(x));
                } else {
                    assert(r[n].contains(x));
                }
            }
            if s.contains(x) {
                assert(r[n].contains(x));
            }
        }
    } else {
        let n = acc.len() as int;
        assert forall|i: int| 0 <= i < r.len() implies (#[trigger] r[i]).first <= r[i].last by {
            if i < n {
                assert(r[i] == acc[i]);
            }
        }
        assert forall|i: int| 0 < i < r.len() implies r[i - 1].last + 1 < (#[trigger] r[i]).first by {
            assert(r[i - 1] == acc[i - 1]);
            if i < n {
                assert(acc[i - 1].last + 1 < acc[i].first);
            }
        }
        assert forall|x: int| spans_contain(r, x) <==> spans_contain(acc, x) || s.contains(x) by {
            if spans_contain(r, x) {
                let k = choose|k: int| 0 <= k < r.len() && 0 <= k && (#[trigger] r[k]).contains(x);
                if k < n {
                    assert(acc[k].contains(x));
                }
            }
            if spans_contain(acc, x) {
                let k = choose|k: int| 0 <= k < acc.len() && 0 <= k && (#[trigger] acc[k]).contains(x);
                assert(r[k] == acc[k]);
                assert(r[k].contains(x));
            }
            if s.contains(x) {
                assert(r[n].contains(x));
            }
        }
    }
}

/// What `union_from` yields is normal and holds what `acc` and the two rests hold.
proof fn lemma_union_from(acc: Seq<Span>, a: Seq<Span>, b: Seq<Span>, i: int, j: int)
    requires
        spans_normal(acc),
        spans_normal(a),
        spans_normal(b),
        0 <= i <= a.len(),
        0 <= j <= b.len(),
        acc.len() > 0 && i < a.len() ==> acc.last().first <= a[i].first,
        acc.len() > 0 && j < b.len() ==> acc.last().first <= b[j].first,
    ensures
        spans_normal(union_from(acc, a, b, i, j)),
        forall|x: int|
            spans_contain(union_from(acc, a, b, i, j), x) <==> spans_contain(acc, x)
                || spans_contain_from(a, i, x) || spans_contain_from(b, j, x),
    decreases a.len() - i + b.len() - j,
{
    let r = union_from(acc, a, b, i, j);
    if i >= a.len() && j >= b.len() {
    } else if j >= b.len() || (i < a.len() && a[i].first <= b[j].first) {
        let s = a[i];
        assert(s.first <= s.last);
        lemma_absorb(acc, s);
        let next = absorb(acc, s);
        if i + 1 < a.len() {
            assert(a[i].last + 1 < a[i + 1].first);
        }
        lemma_union_from(next, a, b, i + 1, j);
        assert forall|x: int|
            spans_contain(r, x) <==> spans_contain(acc, x) || spans_contain_from(a, i, x)
                || spans_contain_from(b, j, x) by {
            if spans_contain_from(a, i, x) {
                let k = choose|k: int| i <= k < a.len() && 0 <= k && (#[trigger] a[k]).contains(x);
                if k > i {
                    assert(spans_contain_from(a, i + 1, x));
                }
            }
            if spans_contain_from(a, i + 1, x) {
                let k = choose|k: int|
                    i + 1 <= k < a.len() && 0 <= k && (#[trigger] a[k]).contains(x);
                assert(a[k].contains(x));
            }
            if s.contains(x) {
                assert(a[i].contains(x));
            }
        }
    } else {
        let s = b[j];
        assert(s.first <= s.last);
        lemma_absorb(acc, s);
        let next = absorb(acc, s);
        if j + 1 < b.len() {
            assert(b[j].last + 1 < b[j + 1].first);
        }
        lemma_union_from(next, a, b, i, j + 1);
        assert forall|x: int|
            spans_contain(r, x) <==> spans_contain(acc, x) || spans_contain_from(a, i, x)
                || spans_contain_from(b, j, x) by {
            if spans_contain_from(b, j, x) {
                let k = choose|k: int| j <= k < b.len() && 0 <= k && (#[trigger] b[k]).contains(x);
                if k > j {
                    assert(spans_contain_from(b, j + 1, x));
                }
            }
            if spans_contain_from(b, j + 1, x) {
                let k = choose|k: int|
                    j + 1 <= k < b.len() && 0 <= k && (#[trigger] b[k]).contains(x);
                assert(b[k].contains(x));
            }
            if s.contains(x) {
                assert(b[j].contains(x));
            }
        }
    }
}

/// The union of two normal sequences is normal and holds the coordinates
/// that either holds.
pub proof fn lemma_union_spans(a: Seq<Span>, b: Seq<Span>)
    requires
        spans_normal(a),
        spans_normal(b),
    ensures
        spans_normal(union_spans(a, b)),
        forall|x: int|
            spans_contain(union_spans(a, b), x) <==> spans_contain(a, x) || spans_contain(b, x),
{
    let none = Seq::<Span>::empty();
    lemma_union_from(none, a, b, 0, 0);
    assert forall|x: int|
        spans_contain(union_spans(a, b), x) <==> spans_contain(a, x) || spans_contain(b, x) by {
        assert(!spans_contain(none, x));
        assert(spans_contain(union_from(none, a, b, 0, 0), x) <==> spans_contain(none, x)
            || spans_contain_from(a, 0, x) || spans_contain_from(b, 0, x));
    }
}

/// Normal sequences that hold the same coordinates agree at index `k`.
proof fn lemma_normal_agree(a: Seq<Span>, b: Seq<Span>, k: int)
    requires
        spans_normal(a),
        spans_normal(b),
        forall|x: int| spans_contain(a, x) <==> spans_contain(b, x),
        0 <= k < a.len(),
    ensures
        k < b.len(),
        a[k] == b[k],
    decreases k,
{
    assert(a[k].first <= a[k].last);
    // the stretch of b that holds the first coordinate of a[k] is not an earlier one
    let x = a[k].first as int;
    assert(a[k].contains(x));
    assert(spans_contain(a, x));
    let m = choose|m: int| 0 <= m < b.len() && 0 <= m && (#[trigger] b[m]).contains(x);
    if m < k {
        lemma_normal_agree(a, b, m);
        lemma_spans_ascend(a, m, k);
    }
    assert(b[k].first <= b[k].last);
    if m > k {
        lemma_spans_ascend(b, k, m);
    }
    assert(b[k].first <= a[k].first);
    // and the other way round
    let y = b[k].first as int;
    assert(b[k].contains(y));
    assert(spans_contain(b, y));
    let n = choose|n: int| 0 <= n < a.len() && 0 <= n && (#[trigger] a[n]).contains(y);
    if n < k {
        lemma_normal_agree(a, b, n);
        lemma_spans_ascend(b, n, k);
    }
    if n > k {
        lemma_spans_ascend(a, k, n);
    }
    assert(a[k].first == b[k].first);
    // neither reaches beyond the other
    if a[k].last < b[k].last {
        let z = a[k].last + 1;
        assert(b[k].contains(z));
        assert(spans_contain(b, z));
        let u = choose|u: int| 0 <= u < a.len() && 0 <= u && (#[trigger] a[u]).contains(z);
        if u < k {
            lemma_normal_agree(a, b, u);
            lemma_spans_ascend(b, u, k);
        }
        if u > k {
            lemma_spans_ascend(a, k, u);
        }
    }
    if b[k].last < a[k].last {
        let z = b[k].last + 1;
        assert(a[k].contains(z));
        assert(spans_contain(a, z));
        let u = choose|u: int| 0 <= u < b.len() && 0 <= u && (#[trigger] b[u]).contains(z);
        if u < k {
            lemma_normal_agree(a, b, u);
            lemma_spans_ascend(a, u, k);
        }
        if u > k {
            lemma_spans_ascend(b, k, u);
        }
    }
}

/// There is one normal way to write down a set of coordinates: normal
/// sequences that hold the same coordinates are equal.
pub proof fn lemma_normal_unique(a: Seq<Span>, b: Seq<Span>)
    requires
        spans_normal(a),
        spans_normal(b),
        forall|x: int| spans_contain(a, x) <==> spans_contain(b, x),
    ensures
        a == b,
{
    if a.len() > 0 {
        lemma_normal_agree(a, b, a.len() - 1);
    }
    if b.len() > 0 {
        lemma_normal_agree(b, a, b.len() - 1);
    }
    assert forall|k: int| 0 <= k < a.len() implies a[k] == b[k] by {
        lemma_normal_agree(a, b, k);
    }
    assert(a =~= b);
}

/// What two sets of stretches share does not depend on their order.
pub proof fn lemma_intersect_commutes(a: Seq<Span>, b: Seq<Span>)
    requires
        spans_normal(a),
        spans_normal(b),
    ensures
        intersect_spans(a, b) == intersect_spans(b, a),
{
    lemma_intersect_spans(a, b);
    lemma_intersect_spans(b, a);
    assert forall|x: int|
        spans_contain(intersect_spans(a, b), x) <==> spans_contain(intersect_spans(b, a), x) by {
        assert(spans_contain(intersect_spans(a, b), x) <==> spans_contain(a, x) && spans_contain(
            b,
            x,
        ));
        assert(spans_contain(intersect_spans(b, a), x) <==> spans_contain(b, x) && spans_contain(
            a,
            x,
        ));
    }
    lemma_normal_unique(intersect_spans(a, b), intersect_spans(b, a));
}

/// The union of two sets of stretches does not depend on their order.
pub proof fn lemma_union_commutes(a: Seq<Span>, b: Seq<Span>)
    requires
        spans_normal(a),
        spans_normal(b),
    ensures
        union_spans(a, b) == union_spans(b, a),
{
    lemma_union_spans(a, b);
    lemma_union_spans(b, a);
    assert forall|x: int|
        spans_contain(union_spans(a, b), x) <==> spans_contain(union_spans(b, a), x) by {
        assert(spans_contain(union_spans(a, b), x) <==> spans_contain(a, x) || spans_contain(b, x));
        assert(spans_contain(union_spans(b, a), x) <==> spans_contain(b, x) || spans_contain(a, x));
    }
    lemma_normal_unique(union_spans(a, b), union_spans(b, a));
}

/// The lowest power among the first `n` arcs, and no more than the power
/// of the whole ring.
pub open spec fn least_power(arqs: Seq<ArqBounds>, n: int) -> int
    decreases n,
{
    if n <= 0 {
        32
    } else if arqs[n - 1].power() <= least_power(arqs, n - 1) {
        arqs[n - 1].power()
    } else {
        least_power(arqs, n - 1)
    }
}

/// A set of arcs, written as the ascending stretches of the ring that they cover.
#[derive(Debug)]
pub struct ArqSet {
    power: u8,
    spans: Vec<Span>,
}

impl View for ArqSet {
    type V = Seq<Span>;

    /// The stretches that the set covers.
    closed spec fn view(&self) -> Seq<Span> {
        self.spans@
    }
}

impl ArqSet {
    /// Binary logarithm of the width of the widest segment that the set is cut into.
    pub closed spec fn power(&self) -> int {
        self.power as int
    }

    /// The stretches are normal.
    pub open spec fn wf(&self) -> bool {
        spans_normal(self@)
    }

    /// Whether the set covers the coordinate.
    pub open spec fn contains(&self, x: int) -> bool {
        spans_contain(self@, x)
    }

    /// The set of one arc.
    pub fn single(arq: ArqBounds) -> (r: ArqSet)
        requires
            arq.wf(),
        ensures
            r.wf(),
            r.power() == arq.power(),
            r@ == arq.spans(),
            forall|x: int| 0 <= x < RING_SIZE ==> (r.contains(x) <==> arq.contains(x)),
    {
        proof {
            lemma_arc_spans(arq.start(), arq.len());
        }
        ArqSet { power: arq.power, spans: arq.to_spans() }
    }

    /// Binary logarithm of the width of the widest segment that the set is cut into.
    pub fn max_power(&self) -> (r: u8)
        ensures
            r == self.power(),
    {
        self.power
    }

    /// The stretches that the set covers.
    pub fn to_bounds(&self) -> (r: &Vec<Span>)
        ensures
            r@ == self@,
    {
        &self.spans
    }

    /// Whether the two sets cover the same stretches and are cut alike.
    pub fn same_as(&self, other: &ArqSet) -> (r: bool)
        ensures
            r == (self@ == other@ && self.power() == other.power()),
    {
        if self.power != other.power || self.spans.len() != other.spans.len() {
            return false;
        }
        let mut i: usize = 0;
        while i < self.spans.len()
            invariant
                i <= self.spans@.len(),
                self.spans@.len() == other.spans@.len(),
                forall|k: int| 0 <= k < i ==> self.spans@[k] == other.spans@[k],
            decreases self.spans@.len() - i,
        {
            if self.spans[i].first != other.spans[i].first || self.spans[i].last
                != other.spans[i].last {
                return false;
            }
            i = i + 1;
        }
        assert(self.spans@ =~= other.spans@);
        true
    }

    /// A copy of the set.
    pub fn duplicate(&self) -> (r: ArqSet)
        ensures
            r@ == self@,
            r.power() == self.power(),
    {
        let mut spans: Vec<Span> = Vec::new();
        let mut i: usize = 0;
        while i < self.spans.len()
            invariant
                i <= self.spans@.len(),
                spans@ == self.spans@.take(i as int),
            decreases self.spans@.len() - i,
        {
            spans.push(self.spans[i]);
            assert(self.spans@.take(i + 1) =~= self.spans@.take(i as int).push(self.spans@[i as int]));
            i = i + 1;
        }
        assert(self.spans@.take(self.spans@.len() as int) =~= self.spans@);
        ArqSet { power: self.power, spans }
    }

    /// The set of the given arcs: what any of them covers, to be cut no
    /// wider than any of them is, and no wider than the ring.
    pub fn new(arqs: &Vec<ArqBounds>) -> (r: ArqSet)
        requires
            forall|i: int| 0 <= i < arqs@.len() ==> (#[trigger] arqs@[i]).wf(),
        ensures
            r.wf(),
            r.power() == least_power(arqs@, arqs@.len() as int),
            forall|x: int|
                r.contains(x) <==> exists|i: int| 0 <= i < arqs@.len() && (#[trigger] arqs@[i]).contains(x),
    {
        let mut all = ArqSet::empty(32);
        let mut k: usize = 0;
        while k < arqs.len()
            invariant
                k <= arqs@.len(),
                forall|i: int| 0 <= i < arqs@.len() ==> (#[trigger] arqs@[i]).wf(),
                all.wf(),
                all.power() == least_power(arqs@, k as int),
                forall|x: int|
                    all.contains(x) <==> exists|i: int| 0 <= i < k && (#[trigger] arqs@[i]).contains(x),
            decreases arqs@.len() - k,
        {
            let one = ArqSet::single(arqs[k]);
            let ghost before = all;
            proof {
                lemma_arc_spans_in_ring(arqs@[k as int].start(), arqs@[k as int].len());
            }
            all = all.union(&one);
            proof {
                assert forall|x: int|
                    all.contains(x) <==> exists|i: int|
                        0 <= i < k + 1 && (#[trigger] arqs@[i]).contains(x) by {
                    if before.contains(x) {
                        let i = choose|i: int| 0 <= i < k && (#[trigger] arqs@[i]).contains(x);
                        assert(arqs@[i].contains(x));
                    }
                    if one.contains(x) {
                        assert(arqs@[k as int].contains(x));
                    }
                    if exists|i: int| 0 <= i < k + 1 && (#[trigger] arqs@[i]).contains(x) {
                        let i = choose|i: int| 0 <= i < k + 1 && (#[trigger] arqs@[i]).contains(x);
                        if i < k {
                            assert(before.contains(x));
                        } else {
                            assert(one.contains(x));
                        }
                    }
                }
            }
            k = k + 1;
        }
        all
    }

    /// The set that covers nothing.
    pub fn empty(power: u8) -> (r: ArqSet)
        ensures
            r.wf(),
            r.power() == power,
            r@ == Seq::<Span>::empty(),
    {
        ArqSet { power, spans: Vec::new() }
    }

    /// The coordinates that either set covers, to be cut no wider than either set is.
    pub fn union(&self, other: &ArqSet) -> (r: ArqSet)
        requires
            self.wf(),
            other.wf(),
        ensures
            r.wf(),
            r.power() == if self.power() <= other.power() {
                self.power()
            } else {
                other.power()
            },
            r@ == union_spans(self@, other@),
            forall|x: int| r.contains(x) <==> self.contains(x) || other.contains(x),
    {
        let mut out: Vec<Span> = Vec::new();
        let mut i: usize = 0;
        let mut j: usize = 0;
        let ghost a = self.spans@;
        let ghost b = other.spans@;
        while i < self.spans.len() || j < other.spans.len()
            invariant
                a == self.spans@,
                b == other.spans@,
                i <= a.len(),
                j <= b.len(),
                union_from(out@, a, b, i as int, j as int) == union_spans(a, b),
            decreases a.len() - i + b.len() - j,
        {
            let from_self = j >= other.spans.len() || (i < self.spans.len()
                && self.spans[i].first <= other.spans[j].first);
            let s = if from_self {
                self.spans[i]
            } else {
                other.spans[j]
            };
            let ghost before = out@;
            let n = out.len();
            if n > 0 && s.first as u64 <= out[n - 1].last as u64 + 1 {
                let prev = out[n - 1];
                let merged = Span {
                    first: prev.first,
                    last: if s.last > prev.last {
                        s.last
                    } else {
                        prev.last
                    },
                };
                out.set(n - 1, merged);
                proof {
                    assert(out@ =~= absorb(before, s));
                }
            } else {
                out.push(s);
            }
            if from_self {
                i = i + 1;
            } else {
                j = j + 1;
            }
        }
        proof {
            lemma_union_spans(a, b);
        }
        ArqSet {
            power: if self.power <= other.power {
                self.power
            } else {
                other.power
            },
            spans: out,
        }
    }

    /// The coordinates that both sets cover, to be cut no wider than either set is.
    pub fn intersection(&self, other: &ArqSet) -> (r: ArqSet)
        requires
            self.wf(),
            other.wf(),
        ensures
            r.wf(),
            r.power() == if self.power() <= other.power() {
                self.power()
            } else {
                other.power()
            },
            r@ == intersect_spans(self@, other@),
            forall|x: int| r.contains(x) <==> self.contains(x) && other.contains(x),
    {
        let mut out: Vec<Span> = Vec::new();
        let mut i: usize = 0;
        let mut j: usize = 0;
        let ghost a = self.spans@;
        let ghost b = other.spans@;
        while i < self.spans.len() && j < other.spans.len()
            invariant
                a == self.spans@,
                b == other.spans@,
                i <= a.len(),
                j <= b.len(),
                out@ + intersect_from(a, b, i as int, j as int) == intersect_spans(a, b),
            decreases a.len() - i + b.len() - j,
        {
            let x = self.spans[i];
            let y = other.spans[j];
            let first = if x.first >= y.first {
                x.first
            } else {
                y.first
            };
            let last = if x.last <= y.last {
                x.last
            } else {
                y.last
            };
            let ghost before = out@;
            let ghost head = overlap(x, y);
            if first <= last {
                out.push(Span { first, last });
            }
            proof {
                assert(out@ =~= before + head);
            }
            if x.last < y.last {
                proof {
                    assert((before + head) + intersect_from(a, b, i + 1, j as int) =~= before + (
                    head + intersect_from(a, b, i + 1, j as int)));
                }
                i = i + 1;
            } else {
                proof {
                    assert((before + head) + intersect_from(a, b, i as int, j + 1) =~= before + (
                    head + intersect_from(a, b, i as int, j + 1)));
                }
                j = j + 1;
            }
        }
        proof {
            assert(intersect_from(a, b, i as int, j as int) =~= Seq::<Span>::empty());
            assert(out@ + Seq::<Span>::empty() =~= out@);
            lemma_intersect_spans(a, b);
        }
        ArqSet {
            power: if self.power <= other.power {
                self.power
            } else {
                other.power
            },
            spans: out,
        }
    }
}

} // verus!
